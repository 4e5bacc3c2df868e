use jama::color::{rule_char, Palette, Tone};
use jama::decimal::Decimal;
use jama::model::{Amount, Flag};
use jama::render::{
    display_width, flag_badge, format_amount, format_number, group_thousands, pad_left, pad_right,
    strip_ansi, Align, Table,
};

#[test]
fn numbers_get_separators_fixed_decimals_and_a_real_minus() {
    assert_eq!(format_number(Decimal::parse("18000").unwrap(), 2), "18,000.00");
    assert_eq!(format_number(Decimal::parse("-1234567.891").unwrap(), 2), "\u{2212}1,234,567.89");
    assert_eq!(format_number(Decimal::parse("-0.00").unwrap(), 2), "0.00");
    assert_eq!(format_number(Decimal::parse("999").unwrap(), 0), "999");
    assert_eq!(group_thousands("1234"), "1,234");
    assert_eq!(group_thousands("123"), "123");
}

#[test]
fn amounts_are_painted_red_only_when_negative() {
    let plain = Palette::new(false, false);
    let a = Amount::new(Decimal::parse("-12.5").unwrap(), "SAR".to_string());
    assert_eq!(format_amount(&a, 2, &plain), "\u{2212}12.50 SAR");
    let ansi = Palette::new(true, false);
    assert_eq!(format_amount(&a, 2, &ansi), "\x1b[31m\u{2212}12.50 SAR\x1b[0m");
    let b = Amount::new(Decimal::parse("3").unwrap(), "USD".to_string());
    assert_eq!(format_amount(&b, 2, &ansi), "3.00 USD");
}

#[test]
fn widths_count_display_columns() {
    assert_eq!(display_width("abc"), 3);
    assert_eq!(display_width("日本"), 4);
    assert_eq!(display_width("e\u{301}"), 1);
    assert_eq!(pad_right("ab", 4), "ab  ");
    assert_eq!(pad_left("ab", 4), "  ab");
    assert_eq!(pad_left("abcdef", 4), "abcdef");
    assert_eq!(pad_right("日本", 5), "日本 ");
}

#[test]
fn ansi_codes_are_stripped() {
    assert_eq!(strip_ansi("\x1b[31mred\x1b[0m text"), "red text");
    assert_eq!(strip_ansi("plain"), "plain");
    assert_eq!(strip_ansi("cut \x1b[3"), "cut ");
}

#[test]
fn badges_mark_cleared_and_pending() {
    let plain = Palette::new(false, false);
    assert_eq!(flag_badge(Flag::Cleared, &plain), "*");
    assert_eq!(flag_badge(Flag::Pending, &plain), "!");
    let tc = Palette::new(true, true);
    assert_eq!(flag_badge(Flag::Pending, &tc), "\x1b[38;2;242;169;59m!\x1b[0m");
}

#[test]
fn tables_align_columns_and_draw_a_rule() {
    let mut t = Table::new(vec!["Account", "Amount"], vec![Align::Left, Align::Right]);
    t.push_row(vec!["assets:cash".to_string(), "1.00".to_string()]);
    t.push_row(vec!["x".to_string(), "\x1b[31m-2.00\x1b[0m".to_string()]);
    t.push_row(vec!["only".to_string()]);
    let body = "assets:cash    1.00\nx             \x1b[31m-2.00\x1b[0m\nonly\n";
    let out = t.render(false);
    assert_eq!(out, format!("Account      Amount\n{}\n{}", "-".repeat(19), body));
    assert_eq!(
        t.try_render(true).unwrap(),
        format!("Account      Amount\n{}\n{}", "\u{2500}".repeat(19), body)
    );
}

#[test]
fn palettes_degrade_without_a_terminal() {
    let off = Palette::decide(false, false, false, Some("truecolor"));
    assert!(!off.enabled());
    assert_eq!(off.paint(Tone::Signal, "x"), "x");
    let flag = Palette::decide(true, false, true, None);
    assert!(!flag.enabled());
    let on = Palette::decide(false, false, true, Some("24bit"));
    assert!(on.enabled());
    assert_eq!(on.paint(Tone::Teal, "ok"), "\x1b[38;2;30;111;107mok\x1b[0m");
    let basic = Palette::decide(false, false, true, None);
    assert_eq!(basic.paint(Tone::Amber, "!"), "\x1b[33m!\x1b[0m");
    assert_eq!(basic.paint(Tone::Brand, "J"), "\x1b[7mJ\x1b[0m");
    assert_eq!(rule_char(true), '\u{2500}');
    assert_eq!(rule_char(false), '-');
}

#[test]
fn stripping_painted_text_gives_it_back() {
    for palette in [Palette::new(true, true), Palette::new(true, false), Palette::new(false, false)] {
        for tone in [Tone::Signal, Tone::Amber, Tone::Teal, Tone::Brand] {
            assert_eq!(strip_ansi(&palette.paint(tone, "12.50 SAR")), "12.50 SAR");
        }
    }
}
