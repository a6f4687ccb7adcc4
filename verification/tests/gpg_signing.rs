//! Signing with GPG.

use jj_core::filter::CommandOutput;
use jj_core::filter::ExitStatus;
use jj_core::gpg_signing::parse_gpg_verify_output;
use jj_core::gpg_signing::sign_outcome;
use jj_core::gpg_signing::verify_output;
use jj_core::gpg_signing::GpgBackend;
use jj_core::gpg_signing::GpgError;
use jj_core::gpg_signing::GpgRun;
use jj_core::gpg_signing::GpgsmBackend;
use jj_core::gpg_signing::SigStatus;
use jj_core::gpg_signing::SignError;
use jj_core::gpg_signing::Verification;
use jj_core::gpg_signing::WriteError;

#[test]
fn gpg_verify_invalid_signature_format() {
    assert!(matches!(
        parse_gpg_verify_output(
            b"[GNUPG:] NODATA 4\n[GNUPG:] FAILURE gpg-exit 33554433\n",
            true
        ),
        Some(Err(SignError::InvalidSignatureFormat))
    ));
}

#[test]
fn gpg_verify_bad_signature() {
    assert_eq!(
        parse_gpg_verify_output(b"[GNUPG:] BADSIG 123 456", true)
            .unwrap()
            .unwrap(),
        Verification::new(SigStatus::Bad, Some("123".into()), Some("456".into()))
    );
}

#[test]
fn gpg_verify_unknown_signature() {
    assert_eq!(
        parse_gpg_verify_output(b"[GNUPG:] NO_PUBKEY 123", true)
            .unwrap()
            .unwrap(),
        Verification::new(SigStatus::Unknown, Some("123".into()), None)
    );
}

#[test]
fn gpg_verify_good_signature() {
    assert_eq!(
        parse_gpg_verify_output(b"[GNUPG:] GOODSIG 123 456", true)
            .unwrap()
            .unwrap(),
        Verification::new(SigStatus::Good, Some("123".into()), Some("456".into()))
    );
}

#[test]
fn gpg_verify_expired_signature() {
    assert_eq!(
        parse_gpg_verify_output(b"[GNUPG:] EXPKEYSIG 123 456", true)
            .unwrap()
            .unwrap(),
        Verification::new(SigStatus::Good, Some("123".into()), Some("456".into()))
    );

    assert_eq!(
        parse_gpg_verify_output(b"[GNUPG:] EXPKEYSIG 123 456", false)
            .unwrap()
            .unwrap(),
        Verification::new(SigStatus::Bad, Some("123".into()), Some("456".into()))
    );
}

#[test]
fn gpg_verify_unknown_error() {
    assert!(parse_gpg_verify_output(b"", true).is_none());
    assert!(
        parse_gpg_verify_output(b"[GNUPG:] FAILURE gpg-exit 33554433\n", true).is_none()
    );
    assert!(
        parse_gpg_verify_output(b"[GNUPG:] FAILURE gpgsm-exit 50331649\n", true).is_none()
    );
}

#[test]
fn gpgsm_verify_unknown_signature() {
    assert_eq!(
        parse_gpg_verify_output(b"[GNUPG:] ERROR verify.findkey 50331657", true)
            .unwrap()
            .unwrap(),
        Verification::unknown(),
    );
}

#[test]
fn gpgsm_verify_invalid_signature_format() {
    assert!(matches!(
        parse_gpg_verify_output(b"[GNUPG:] ERROR verify.leave 150995087", true),
        Some(Err(SignError::InvalidSignatureFormat))
    ));
}

#[test]
fn names_of_keys_are_trimmed_and_may_be_any_bytes() {
    // An owner has several words, and white space around them is dropped.
    let verification = parse_gpg_verify_output(
        b"junk\n[GNUPG:] NEWSIG\n[GNUPG:] GOODSIG 12AB John  Doe <j@d>\xc2\xa0 \n",
        true,
    );
    assert_eq!(
        verification.unwrap().unwrap(),
        Verification::new(
            SigStatus::Good,
            Some("12AB".into()),
            Some("John  Doe <j@d>".into())
        )
    );
    // A key that is not UTF-8 is left out.
    let verification = parse_gpg_verify_output(b"[GNUPG:] BADSIG \xff\xff x\n", true);
    assert_eq!(
        verification.unwrap().unwrap(),
        Verification::new(SigStatus::Bad, None, Some("x".into()))
    );
}

fn output(success: bool, stdout: &[u8], stderr: &[u8]) -> CommandOutput {
    CommandOutput {
        status: ExitStatus {
            success,
            description: "exit status: 2".to_owned(),
        },
        stdout: stdout.to_vec(),
        stderr: stderr.to_vec(),
    }
}

fn ended(output: CommandOutput, write_result: Result<(), WriteError>) -> GpgRun {
    GpgRun::Ended {
        output,
        write_result,
    }
}

fn write_error(broken_pipe: bool) -> Result<(), WriteError> {
    Err(WriteError {
        broken_pipe,
        message: "not written".to_owned(),
    })
}

#[test]
fn outcomes_of_signing() {
    let signed = sign_outcome(ended(output(true, b"signature", b""), Ok(())));
    assert_eq!(signed.unwrap(), b"signature");

    let error = sign_outcome(GpgRun::Failed("no gpg".to_owned())).unwrap_err();
    assert!(matches!(&error, GpgError::Io(message) if message == "no gpg"));
    assert_eq!(error.message(), "Failed to run GPG");

    let error = sign_outcome(ended(output(true, b"signature", b""), write_error(true)));
    assert!(matches!(error, Err(GpgError::Io(_))));

    // What is wrong with the text of an error is replaced.
    let error =
        sign_outcome(ended(output(false, b"", b"bad \xff key\n"), write_error(true))).unwrap_err();
    assert_eq!(
        error.message(),
        "GPG failed with exit status: 2:\nbad \u{fffd} key"
    );
}

#[test]
fn outcomes_of_verifying() {
    // A process need not read all of its input.
    assert!(verify_output(ended(output(false, b"", b""), write_error(true))).is_ok());
    assert!(verify_output(ended(output(false, b"", b""), Ok(()))).is_ok());
    assert!(matches!(
        verify_output(ended(output(true, b"", b""), write_error(false))),
        Err(GpgError::Io(message)) if message == "not written"
    ));
    assert!(matches!(
        verify_output(GpgRun::Failed("no gpg".to_owned())),
        Err(GpgError::Io(message)) if message == "no gpg"
    ));

    let backend = GpgBackend::new("gpg".to_owned(), false, "me".to_owned());
    assert_eq!(
        backend
            .verification(output(true, b"[GNUPG:] EXPKEYSIG 1 2\n", b""))
            .unwrap()
            .status,
        SigStatus::Bad
    );
    assert!(matches!(
        backend.verification(output(false, b"", b"oops")),
        Err(SignError::Backend(GpgError::Command { stderr, .. })) if stderr == "oops"
    ));
    let backend = GpgsmBackend::new("gpgsm".to_owned(), true, "me".to_owned());
    assert_eq!(
        backend
            .verification(output(true, b"[GNUPG:] EXPKEYSIG 1 2\n", b""))
            .unwrap()
            .status,
        SigStatus::Good
    );
}

#[test]
fn gpg_arguments() {
    let backend = GpgBackend::from_settings::<String>(Ok("gpg2".to_owned()), Ok(true), "a@b")
        .unwrap()
        .with_extra_args(&["--batch".to_owned()]);
    assert_eq!(backend.name(), "gpg");
    assert_eq!(backend.program, "gpg2");
    assert_eq!(backend.sign_args(None), ["--batch", "-abu", "a@b"]);
    assert_eq!(backend.sign_args(Some("key")), ["--batch", "-abu", "key"]);
    assert_eq!(
        backend.verify_args("sig"),
        [
            "--batch",
            "--keyid-format=long",
            "--status-fd=1",
            "--verify",
            "sig",
            "-"
        ]
    );
    assert!(backend.can_read(b"-----BEGIN PGP SIGNATURE-----\nxyz"));
    assert!(!backend.can_read(b"-----BEGIN SIGNED MESSAGE-----\nxyz"));
    assert!(!backend.can_read(b"-----BEGIN PGP"));
    assert!(matches!(
        GpgBackend::from_settings(Err("program"), Err("expired"), "a@b"),
        Err("program")
    ));
}

#[test]
fn gpgsm_arguments() {
    let backend = GpgsmBackend::from_settings::<String>(Ok("gpgsm".to_owned()), Ok(true), "a@b")
        .unwrap()
        .with_extra_args(&[]);
    assert_eq!(backend.name(), "gpgsm");
    assert_eq!(backend.sign_args(None), ["-abu", "a@b"]);
    assert_eq!(
        backend.verify_args("sig", "data"),
        ["--status-fd=1", "--verify", "sig", "data"]
    );
    assert!(backend.can_read(b"-----BEGIN SIGNED MESSAGE-----\nxyz"));
    assert!(!backend.can_read(b"-----BEGIN PGP SIGNATURE-----\nxyz"));
    assert!(matches!(
        GpgsmBackend::from_settings(Ok("gpgsm".to_owned()), Err("expired"), "a@b"),
        Err("expired")
    ));
}

#[test]
fn white_space_is_that_of_unicode() {
    let key_of = |key: &str| {
        let line = format!("[GNUPG:] NO_PUBKEY {key}");
        let verification = parse_gpg_verify_output(line.as_bytes(), false);
        verification.unwrap().unwrap().key.unwrap()
    };
    let spaces = "\t\u{b}\u{c}\r\u{85}\u{a0}\u{1680}\u{2000}\u{2005}\u{200a}\u{2028}\u{2029}\u{202f}\u{205f}\u{3000}";
    assert_eq!(key_of(&format!("{spaces}12{spaces}")), "12");
    for other in ['\u{8}', '\u{e}', '\u{180e}', '\u{200b}', '\u{feff}'] {
        let key = format!("{other}12{other}");
        assert_eq!(key_of(&key), key);
    }
}
