use taproot::printf::parser::{
    char_arg, parse_format, string_arg_text, ArgType, Conversion, Count, Directive, Length, Piece, Tally,
};
use taproot::printf::{DoubleFormat, Flags, SignedInt, UnsignedInt};

fn plain(conversion: Conversion) -> Directive {
    Directive {
        flags: Flags::empty(),
        width: Count::Fixed(0),
        precision: None,
        length: Length::Int,
        conversion,
    }
}

fn text(start: usize, end: usize) -> Piece {
    Piece::Text { start, end }
}

#[test]
fn parses_d_s_f_directives() {
    let pieces = parse_format(b"%d %s %.2f");
    let double = Directive {
        precision: Some(Count::Fixed(2)),
        ..plain(Conversion::Double(DoubleFormat::Normal))
    };
    assert_eq!(
        pieces,
        vec![
            text(0, 0),
            Piece::Directive(plain(Conversion::Int)),
            text(2, 3),
            Piece::Directive(plain(Conversion::Str)),
            text(5, 6),
            Piece::Directive(double),
            text(10, 10),
        ]
    );
}

#[test]
fn parses_width_precision_and_alignment() {
    let pieces = parse_format(b"%08.3f|%-6d|%5s");
    let mut zero = Flags::empty();
    zero.prepend_zero = true;
    let mut left = Flags::empty();
    left.left_align = true;
    assert_eq!(
        pieces,
        vec![
            text(0, 0),
            Piece::Directive(Directive {
                flags: zero,
                width: Count::Fixed(8),
                precision: Some(Count::Fixed(3)),
                ..plain(Conversion::Double(DoubleFormat::Normal))
            }),
            text(6, 7),
            Piece::Directive(Directive { flags: left, width: Count::Fixed(6), ..plain(Conversion::Int) }),
            text(11, 12),
            Piece::Directive(Directive { width: Count::Fixed(5), ..plain(Conversion::Str) }),
            text(15, 15),
        ]
    );
}

#[test]
fn star_width_is_an_argument() {
    let pieces = parse_format(b"%*d");
    assert_eq!(
        pieces,
        vec![
            text(0, 0),
            Piece::Directive(Directive { width: Count::Star, ..plain(Conversion::Int) }),
            text(3, 3),
        ]
    );
    let pieces = parse_format(b"%.*s");
    assert_eq!(
        pieces[1],
        Piece::Directive(Directive { precision: Some(Count::Star), ..plain(Conversion::Str) })
    );
}

#[test]
fn percent_n_parses_as_a_count_directive() {
    let pieces = parse_format(b"a%nb");
    assert_eq!(
        pieces,
        vec![text(0, 1), Piece::Directive(plain(Conversion::WriteBytesWritten)), text(3, 4)]
    );
}

#[test]
fn double_percent_is_a_literal_percent() {
    assert_eq!(
        parse_format(b"100%%"),
        vec![text(0, 3), Piece::Directive(plain(Conversion::Percent)), text(4, 4), text(5, 5)]
    );
    // The chunk after `%%` is printed as it stands, even when it looks like
    // a directive.
    assert_eq!(
        parse_format(b"%%d"),
        vec![text(0, 0), Piece::Directive(plain(Conversion::Percent)), text(1, 1), text(2, 3)]
    );
}

#[test]
fn plain_text_is_one_piece() {
    assert_eq!(parse_format(b"hello"), vec![text(0, 5)]);
    assert_eq!(parse_format(b""), vec![text(0, 0)]);
}

#[test]
fn unknown_conversion_ends_the_parse() {
    assert_eq!(parse_format(b"x%yz%d"), vec![text(0, 1), Piece::Invalid]);
    // A lone `%` at the end has no conversion character.
    assert_eq!(parse_format(b"abc%"), vec![text(0, 3), Piece::Invalid]);
}

#[test]
fn every_flag_is_read() {
    let pieces = parse_format(b"%-+ 0'#5d");
    let all = Flags {
        left_align: true,
        prepend_plus: true,
        prepend_space: true,
        prepend_zero: true,
        thousands_grouping: true,
        alternate_form: true,
    };
    assert_eq!(all.bits(), 63);
    assert_eq!(Flags::empty().bits(), 0);
    assert_eq!(
        pieces[1],
        Piece::Directive(Directive { flags: all, width: Count::Fixed(5), ..plain(Conversion::Int) })
    );
}

#[test]
fn length_modifiers() {
    let cases: [(&[u8], Length, Conversion); 7] = [
        (b"%hhx", Length::Char, Conversion::Hex),
        (b"%hd", Length::Short, Conversion::Int),
        (b"%ld", Length::Long, Conversion::Int),
        (b"%llu", Length::LongLong, Conversion::Uint),
        (b"%zu", Length::Usize, Conversion::Uint),
        (b"%to", Length::Isize, Conversion::Octal),
        (b"%X", Length::Int, Conversion::UpperHex),
    ];
    for (fmt, length, conversion) in cases {
        let pieces = parse_format(fmt);
        assert_eq!(pieces[1], Piece::Directive(Directive { length, ..plain(conversion) }));
    }
}

#[test]
fn double_styles_and_case() {
    let cases: [(&[u8], DoubleFormat); 8] = [
        (b"%f", DoubleFormat::Normal),
        (b"%F", DoubleFormat::UpperNormal),
        (b"%e", DoubleFormat::Scientific),
        (b"%E", DoubleFormat::UpperScientific),
        (b"%g", DoubleFormat::Auto),
        (b"%G", DoubleFormat::UpperAuto),
        (b"%a", DoubleFormat::Hex),
        (b"%A", DoubleFormat::UpperHex),
    ];
    for (fmt, style) in cases {
        assert_eq!(parse_format(fmt)[1], Piece::Directive(plain(Conversion::Double(style))));
    }
    assert!(DoubleFormat::UpperAuto.is_upper());
    assert!(!DoubleFormat::Auto.is_upper());
    assert_eq!(DoubleFormat::Normal.set_upper(true), DoubleFormat::UpperNormal);
    assert_eq!(DoubleFormat::UpperScientific.set_upper(false), DoubleFormat::Scientific);
    assert_eq!(DoubleFormat::Hex.set_upper(true), DoubleFormat::UpperHex);
    assert_eq!(DoubleFormat::UpperAuto.set_upper(true), DoubleFormat::UpperAuto);
}

#[test]
fn other_conversions() {
    assert_eq!(parse_format(b"%c")[1], Piece::Directive(plain(Conversion::Char)));
    assert_eq!(parse_format(b"%p")[1], Piece::Directive(plain(Conversion::Pointer)));
    assert_eq!(parse_format(b"%i")[1], Piece::Directive(plain(Conversion::Int)));
}

#[test]
fn width_digits_wrap_as_a_c_int() {
    // 4294967301 is 2^32 + 5.
    let pieces = parse_format(b"%4294967301d");
    assert_eq!(pieces[1], Piece::Directive(Directive { width: Count::Fixed(5), ..plain(Conversion::Int) }));
}

#[test]
fn integer_arguments_by_length() {
    assert_eq!(Length::Char.arg_type(), ArgType::Int);
    assert_eq!(Length::Long.arg_type(), ArgType::Long);
    assert_eq!(Length::LongLong.arg_type(), ArgType::LongLong);
    assert_eq!(Length::Usize.arg_type(), ArgType::Size);
    assert_eq!(Length::Char.parse_signed(0x1ff), SignedInt::Char(-1));
    assert_eq!(Length::Short.parse_signed(0x18000), SignedInt::Short(-32768));
    assert_eq!(Length::Int.parse_signed(-7), SignedInt::Int(-7));
    assert_eq!(Length::Long.parse_signed(i64::MIN), SignedInt::Long(i64::MIN));
    assert_eq!(Length::Short.parse_unsigned(0x12345), UnsignedInt::Short(0x2345));
    assert_eq!(Length::Char.parse_unsigned(0x1ff), UnsignedInt::Char(0xff));
    assert_eq!(Length::Isize.parse_unsigned(9), UnsignedInt::Isize(9));
    assert_eq!(char_arg(0x141), 0x41);
}

#[test]
fn integer_values_and_text() {
    assert!(SignedInt::Int(-1).is_sign_negative());
    assert!(!SignedInt::Long(0).is_sign_negative());
    assert!(SignedInt::Char(-128).is_sign_negative());
    assert_eq!(i64::from(SignedInt::Char(-128)), -128);
    assert_eq!(i64::from(SignedInt::Isize(-3)), -3);
    assert_eq!(u64::from(UnsignedInt::Short(65535)), 65535);
    assert_eq!(u64::from(UnsignedInt::LongLong(u64::MAX)), u64::MAX);
    assert_eq!(SignedInt::Int(-42).display(), b"-42".to_vec());
    assert_eq!(SignedInt::Char(-128).display(), b"-128".to_vec());
    assert_eq!(SignedInt::LongLong(i64::MIN).display(), b"-9223372036854775808".to_vec());
    assert_eq!(SignedInt::Short(0).display(), b"0".to_vec());
    assert_eq!(UnsignedInt::LongLong(u64::MAX).display(), b"18446744073709551615".to_vec());
    assert_eq!(UnsignedInt::Int(255).lower_hex(), b"ff".to_vec());
    assert_eq!(UnsignedInt::Int(255).upper_hex(), b"FF".to_vec());
    assert_eq!(UnsignedInt::Char(8).octal(), b"10".to_vec());
    assert_eq!(UnsignedInt::Long(0).lower_hex(), b"0".to_vec());
}

#[test]
fn tally_counts_and_fails() {
    let mut t = Tally::new();
    assert!(t.add(5));
    assert!(t.add(0));
    assert_eq!(t.written, 5);
    assert!(!t.add(-1));
    assert_eq!(t.written, 5);
    let mut big = Tally { written: i32::MAX };
    assert!(big.add(1));
    assert_eq!(big.written, i32::MIN);
}

/// The arguments a whole format fetches, in order, up to an unknown
/// conversion.
fn plan(fmt: &[u8]) -> Vec<ArgType> {
    let mut out = Vec::new();
    for p in parse_format(fmt) {
        match p {
            Piece::Directive(d) => out.extend(d.fetches()),
            Piece::Invalid => break,
            Piece::Text { .. } => {}
        }
    }
    out
}

#[test]
fn star_width_is_fetched_before_the_value() {
    assert_eq!(plan(b"%*d"), vec![ArgType::Int, ArgType::Int]);
    assert_eq!(plan(b"%*.*f"), vec![ArgType::Int, ArgType::Int, ArgType::Double]);
    assert_eq!(plan(b"%.*s"), vec![ArgType::Int, ArgType::Pointer]);
}

#[test]
fn fetches_follow_the_directives() {
    let mut expected = vec![ArgType::Int; 7];
    expected.push(ArgType::Double);
    assert_eq!(plan(b"%d %d %d %d %d %d %d %.1f"), expected);
    assert_eq!(plan(b"%d %s %.2f"), vec![ArgType::Int, ArgType::Pointer, ArgType::Double]);
    assert_eq!(plan(b"%lld %zu %hhx %ld"), vec![ArgType::LongLong, ArgType::Size, ArgType::Int, ArgType::Long]);
    assert_eq!(plan(b"%c%p%n"), vec![ArgType::Int, ArgType::Pointer, ArgType::Pointer]);
    // `%%` takes no argument, and nothing past an unknown conversion is fetched.
    assert_eq!(plan(b"100%% %d%y%d"), vec![ArgType::Int]);
}

#[test]
fn literal_pieces_lie_within_the_format() {
    let formats: [&[u8]; 6] = [b"%", b"%%%", b"a%5.3lld|%-#x%%%s", b"%%d%", b"%*.*", b"x%hhn%zt"];
    for fmt in formats {
        let mut last_end = 0;
        for p in parse_format(fmt) {
            if let Piece::Text { start, end } = p {
                assert!(start <= end && end <= fmt.len(), "{:?}", fmt);
                // In order, without overlap.
                assert!(last_end <= start, "{:?}", fmt);
                last_end = end;
            }
        }
    }
}

/// Feed handler answers to a tally the way a format run does, stopping at
/// the first failure: the run's result, the calls made, and the count each
/// call found before it.
fn run(answers: &[i32]) -> (i32, usize, Vec<i32>) {
    let mut t = Tally::new();
    let mut seen = Vec::new();
    for (k, &a) in answers.iter().enumerate() {
        seen.push(t.written);
        if !t.add(a) {
            return (-1, k + 1, seen);
        }
    }
    (t.written, answers.len(), seen)
}

#[test]
fn format_run_stops_at_the_first_negative_answer() {
    assert_eq!(run(&[3, 4, -1, 9]).0, -1);
    assert_eq!(run(&[3, 4, -1, 9]).1, 3);
    assert_eq!(run(&[-5]).0, -1);
}

#[test]
fn format_run_returns_the_sum_of_the_answers() {
    let (r, calls, seen) = run(&[2, 3, 0, 5]);
    assert_eq!(r, 10);
    assert_eq!(calls, 4);
    // What a `%n` at each call would be handed.
    assert_eq!(seen, vec![0, 2, 5, 5]);
}

#[test]
fn null_string_prints_as_null_text() {
    assert_eq!(string_arg_text(true), Some(b"(null)".to_vec()));
    assert_eq!(string_arg_text(false), None);
}
