use qr_gen::generator::Flag;
use qr_gen::options::{set_options, OptionError};
use qr_gen::scanner::{decimal_string, scan_report, Scanner};
use qr_gen::ECCLevel;

#[test]
fn flags_f_and_b() {
    let mut f = Flag::new();
    assert!(set_options("-f", &mut f).is_ok());
    assert!(f.data);
    assert!(!f.bytes);
    assert!(set_options("-b", &mut f).is_ok());
    assert!(f.bytes);
}

#[test]
fn minimum_version_flag() {
    let mut f = Flag::new();
    assert!(set_options("-v3", &mut f).is_ok());
    assert_eq!(f.min_vers, 3);
    assert!(set_options("-v40", &mut f).is_ok());
    assert_eq!(f.min_vers, 40);
    assert_eq!(set_options("-v0", &mut f), Err(OptionError::MinVersionRange));
    assert_eq!(set_options("-v41", &mut f), Err(OptionError::MinVersionRange));
    assert_eq!(set_options("-v", &mut f), Err(OptionError::MinVersionMissing));
    assert_eq!(set_options("-vx", &mut f), Err(OptionError::MinVersionNotInteger));
    assert_eq!(f.min_vers, 40);
}

#[test]
fn error_correction_flag() {
    let mut f = Flag::new();
    assert!(set_options("-e0", &mut f).is_ok());
    assert_eq!(f.ecc, ECCLevel::Low);
    assert!(set_options("-e1", &mut f).is_ok());
    assert_eq!(f.ecc, ECCLevel::Medium);
    assert!(set_options("-e2", &mut f).is_ok());
    assert_eq!(f.ecc, ECCLevel::Quartile);
    assert!(set_options("-e3", &mut f).is_ok());
    assert_eq!(f.ecc, ECCLevel::High);
    assert_eq!(set_options("-e4", &mut f), Err(OptionError::EccBad));
    assert_eq!(set_options("-ex", &mut f), Err(OptionError::EccBad));
    assert_eq!(set_options("-e", &mut f), Err(OptionError::EccMissing));
}

#[test]
fn unknown_flag() {
    let mut f = Flag::new();
    assert_eq!(set_options("-q", &mut f), Err(OptionError::UnknownFlag));
    assert!(!f.data);
}

#[test]
fn decimal_strings() {
    assert_eq!(decimal_string(0), "0");
    assert_eq!(decimal_string(7), "7");
    assert_eq!(decimal_string(10), "10");
    assert_eq!(decimal_string(12345), "12345");
}

#[test]
fn scan_report_format() {
    let contents = vec![String::from("first\n"), String::from("second")];
    let report = scan_report(&contents);
    assert_eq!(report, "Content #0 ---\nfirst\nContent #1 ---\nsecond");
    let s = Scanner::new(String::from("in.png"), String::from("out.txt"));
    assert_eq!(s.input, "in.png");
    assert_eq!(s.output, "out.txt");
}
