use steplisp::number;
use steplisp::number::{Arith, Order};
use steplisp::object::{check_object, ivec2, properties, read_string};
use steplisp::screen::{ScreenColor, ScreenLine};
use steplisp::val::{p, value_to_val, Syntax, Val};

fn bits(x: f32) -> u32 {
    x.to_bits()
}

const SAMPLES: [f32; 14] = [
    0.0,
    -0.0,
    1.0,
    -1.0,
    0.5,
    1.5,
    -2.75,
    16777216.0,
    1.0e-40,
    3.4e38,
    f32::INFINITY,
    f32::NEG_INFINITY,
    f32::NAN,
    123.456,
];

#[test]
fn comparisons_are_those_of_the_values() {
    for a in SAMPLES {
        assert_eq!(number::nan(bits(a)), a.is_nan());
        assert_eq!(number::neg(bits(a)), bits(-a));
        for b in SAMPLES {
            assert_eq!(number::eq(bits(a), bits(b)), a == b);
            assert_eq!(number::lt(bits(a), bits(b)), a < b);
            assert_eq!(number::le(bits(a), bits(b)), a <= b);
            assert_eq!(number::gt(bits(a), bits(b)), a > b);
            assert_eq!(number::ge(bits(a), bits(b)), a >= b);
            assert_eq!(Order::Less.test(bits(a), bits(b)), !(a >= b));
            assert_eq!(Order::Greater.test(bits(a), bits(b)), !(a <= b));
            assert_eq!(Order::LessEq.test(bits(a), bits(b)), !(a > b));
            assert_eq!(Order::GreaterEq.test(bits(a), bits(b)), !(a < b));
        }
    }
    assert_eq!(number::ZERO, bits(0.0));
    assert_eq!(number::ONE, bits(1.0));
}

#[test]
fn operations_are_those_of_the_values() {
    for a in SAMPLES {
        for b in SAMPLES {
            let same = |got: u32, want: f32| {
                if want.is_nan() {
                    assert!(f32::from_bits(got).is_nan());
                } else {
                    assert_eq!(got, bits(want));
                }
            };
            same(Arith::Plus.calc(bits(a), bits(b)), a + b);
            same(Arith::Minus.calc(bits(a), bits(b)), a - b);
            same(Arith::Times.calc(bits(a), bits(b)), a * b);
            same(Arith::Over.calc(bits(a), bits(b)), a / b);
            same(Arith::Modulo.calc(bits(a), bits(b)), a % b);
        }
    }
}

#[test]
fn whole_parts() {
    for a in SAMPLES {
        assert_eq!(number::to_int(bits(a)), a as i32);
    }
    for a in [0.99f32, -0.99, 1.0, 2.5, -2.5, 8388607.5, 2147483520.0, -2147483648.0, 2147483648.0, -2147483904.0, 1e10, -1e10, 7.0e-10] {
        assert_eq!(number::to_int(bits(a)), a as i32);
    }
}

#[test]
fn texts_of_numbers() {
    for (value, text) in [
        (0.0f32, "0"),
        (1.0, "1"),
        (-1.0, "-1"),
        (0.5, "0.5"),
        (54.6, "54.6"),
        (0.1, "0.1"),
        (1.0 / 3.0, "0.33333334"),
        (10000.0, "10000"),
        (123456.0, "123456"),
        (0.000001, "0.000001"),
        (16777216.0, "16777216"),
    ] {
        assert_eq!(number::to_text(bits(value)), text);
        assert_eq!(p(text), Val::Num(bits(value)));
    }
    for a in SAMPLES {
        if a.is_finite() {
            let text = number::to_text(bits(a));
            assert!(!text.contains('E'));
            assert_eq!(text.parse::<f32>().unwrap().to_bits(), bits(a));
        }
    }
    for value in [
        1.5e10f32,
        1.0e10,
        1.0e9,
        123456789.0,
        -2.5e20,
        3.0e38,
        f32::MAX,
        f32::MIN_POSITIVE,
        1.0e-45,
        -0.0,
        f32::INFINITY,
        f32::NEG_INFINITY,
        f32::NAN,
    ] {
        assert_eq!(number::to_text(bits(value)), value.to_string());
    }
    assert_eq!(number::to_text(bits(1.5e10)), "15000000000");
    assert_eq!(number::to_text(bits(f32::INFINITY)), "inf");
    assert_eq!(number::to_text(bits(f32::NEG_INFINITY)), "-inf");
    assert_eq!(number::to_text(bits(f32::NAN)), "NaN");
    assert_eq!(number::index_text(0), "0");
    assert_eq!(number::index_text(7), "7");
    assert_eq!(number::index_text(10), "10");
    assert_eq!(number::index_text(90210), "90210");
    assert_eq!(number::index_text(usize::MAX), usize::MAX.to_string());
}

#[test]
fn values_of_syntax() {
    assert_eq!(value_to_val(Syntax::Int(3)), Val::Num(bits(3.0)));
    assert_eq!(value_to_val(Syntax::Int(-16777217)), Val::Num(bits(-16777217i32 as f32)));
    assert_eq!(value_to_val(Syntax::Int(i32::MIN)), Val::Num(bits(i32::MIN as f32)));
    assert_eq!(value_to_val(Syntax::Int(i32::MAX)), Val::Num(bits(i32::MAX as f32)));
    assert_eq!(value_to_val(Syntax::Float(bits(2.5))), Val::Num(bits(2.5)));
    assert_eq!(value_to_val(Syntax::True), Val::Sym("t".to_string()));
    assert_eq!(value_to_val(Syntax::False), Val::Sym("f".to_string()));
    assert_eq!(value_to_val(Syntax::Symbol("\"\"".to_string())), Val::String(String::new()));
    assert_eq!(value_to_val(Syntax::Symbol("name".to_string())), Val::Sym("name".to_string()));
    assert_eq!(value_to_val(Syntax::Text("text".to_string())), Val::String("text".to_string()));
    assert_eq!(value_to_val(Syntax::Lambda), Val::Sym("lambda".to_string()));
    assert_eq!(value_to_val(Syntax::HashMap), Val::Sym("hashmap".to_string()));
    assert_eq!(value_to_val(Syntax::NativeFunc), Val::Sym("nativefunc".to_string()));
    assert_eq!(value_to_val(Syntax::NativeClosure), Val::Sym("nativefunc".to_string()));
    assert_eq!(value_to_val(Syntax::Macro), Val::Sym("macro".to_string()));
    assert_eq!(value_to_val(Syntax::Foreign), Val::Sym("foreign".to_string()));
    assert_eq!(value_to_val(Syntax::TailCall), Val::Sym("tailcall".to_string()));
    assert_eq!(
        value_to_val(Syntax::List(vec![Syntax::Int(1), Syntax::List(vec![Syntax::True])])),
        p("(1 (t))")
    );
}

#[test]
fn objects() {
    assert!(check_object(&p("((a 1) () (b))")));
    assert!(check_object(&p("()")));
    assert!(!check_object(&p("(a)")));
    assert!(!check_object(&p("((1 2))")));
    assert!(!check_object(&p("5")));
    assert_eq!(
        properties(&p("((a 1) () (b) (c 1 2 3))")),
        vec![
            ("a".to_string(), p("1")),
            ("b".to_string(), Val::nil()),
            ("c".to_string(), p("(1 2 3)")),
        ]
    );
    assert_eq!(ivec2(&p("(1.9 -2.9 7)")), Some((1, -2)));
    assert_eq!(ivec2(&p("(1)")), None);
    assert_eq!(ivec2(&p("(1 a)")), None);
    assert_eq!(ivec2(&p("5")), None);
    assert_eq!(read_string(&p("name")), "name");
    assert_eq!(read_string(&p("\"text\"")), "text");
    assert_eq!(read_string(&p("(1 \"a\")")), "(1 \"a\")");
    assert_eq!(read_string(&p("2.5")), "2.5");
}

#[test]
fn display_lines_start_empty() {
    let line = ScreenLine::default();
    assert_eq!(line.text, "");
    assert_eq!(line.indent, "");
    assert_eq!(line.importance, 0);
    assert_eq!(line.order, 0);
    assert_eq!(line.color, ScreenColor::White);
    assert_eq!(ScreenColor::default(), ScreenColor::White);
}

/// A spread of bit patterns over all exponents and both signs.
fn spread(count: u32) -> Vec<u32> {
    let mut out = vec![];
    let mut x: u32 = 0x9e37_79b9;
    for _ in 0..count {
        x = x.wrapping_mul(1664525).wrapping_add(1013904223);
        out.push(x);
    }
    out
}

#[test]
fn texts_read_back_over_a_spread_of_values() {
    for pattern in spread(3000) {
        let value = f32::from_bits(pattern);
        let text = number::to_text(pattern);
        if value.is_nan() {
            assert_eq!(text, "NaN");
        } else if value.is_infinite() {
            assert_eq!(text, if value > 0.0 { "inf" } else { "-inf" });
        } else {
            assert!(!text.contains('E'));
            assert_eq!(text.parse::<f32>().unwrap().to_bits(), pattern, "{}", text);
            assert_eq!(text, value.to_string());
        }
    }
}

#[test]
fn operations_agree_over_a_spread_of_values() {
    let patterns = spread(4000);
    for pair in patterns.chunks(2) {
        let (a, b) = (pair[0], pair[1]);
        let (x, y) = (f32::from_bits(a), f32::from_bits(b));
        let same = |got: u32, want: f32| {
            if want.is_nan() {
                assert!(f32::from_bits(got).is_nan());
            } else {
                assert_eq!(got, want.to_bits());
            }
        };
        same(Arith::Plus.calc(a, b), x + y);
        same(Arith::Minus.calc(a, b), x - y);
        same(Arith::Times.calc(a, b), x * y);
        same(Arith::Over.calc(a, b), x / y);
        same(Arith::Modulo.calc(a, b), x % y);
        assert_eq!(number::eq(a, b), x == y);
        assert_eq!(number::lt(a, b), x < y);
        assert_eq!(number::le(a, b), x <= y);
        assert_eq!(number::to_int(a), x as i32);
        assert_eq!(number::neg(a), (-x).to_bits());
    }
}

#[test]
fn integers_become_the_nearest_values() {
    for pattern in spread(4000) {
        let n = pattern as i32;
        assert_eq!(value_to_val(Syntax::Int(n)), Val::Num((n as f32).to_bits()));
        let small = n >> 7;
        assert_eq!(value_to_val(Syntax::Int(small)), Val::Num((small as f32).to_bits()));
        assert_eq!(number::to_int((small as f32).to_bits()), small as f32 as i32);
    }
}

#[test]
fn texts_are_the_shortest_digits() {
    for i in -2000..2000i32 {
        let n = i as f32;
        for value in [n, n / 8.0, n / 10.0, n / 1000.0, n * 1000.0, n * 1.0e7, n * 1.0e30] {
            assert_eq!(number::to_text(bits(value)), value.to_string());
        }
    }
    assert_eq!(number::to_text(bits(927.37988)), "927.3799");
    assert_eq!(number::to_text(bits(0.0000000097043209)), "0.000000009704321");
    assert_eq!(number::to_text(bits(9698240600000.0)), "9698241000000");
    assert_eq!(number::to_text(bits(979.08605)), "979.08606");
}
