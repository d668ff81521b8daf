//! Lines of the text dump.

use aq_lcd_grab::host::parser::parse_line;
use aq_lcd_grab::host::sample::Sample;

#[test]
fn parses_a_line() {
    let line = "[0008] 00000 24000 2c000 00000 28000 04000 18000 30000";
    let samples = parse_line(line).unwrap();
    assert_eq!(samples.len(), 8);
    assert_eq!(samples[0].data, 0x0000);
    assert_eq!(samples[2].data, 0xc000);
    assert!(!samples[2].dc);
    assert!(samples[2].cs);
}

#[test]
fn ignores_chatter() {
    assert!(parse_line("dump done").is_none());
    assert!(parse_line("captured 4096 samples, dumping all:").is_none());
}

#[test]
fn refuses_words_that_are_not_hexadecimal() {
    assert!(parse_line("[0008] 0000g").is_none());
    assert!(parse_line("[0008] 100000000").is_none());
}

#[test]
fn raw_samples_have_their_documented_layout() {
    let s = Sample::from_raw(0x1_0000 | 0x1234);
    assert_eq!(s.data, 0x1234);
    let t = Sample::from_raw(0x2_0000);
    assert_eq!(t.data, 0);
    assert!(s.cs && !s.dc);
    assert!(!t.cs && t.dc);
}
