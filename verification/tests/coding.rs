use arithmetic_coding::{decode, encode, Fraction, Model, Probability, UnknownSymbolError};

fn dyadic_model() -> Model {
    let probabilities = vec![
        Probability { symbol: "a".to_string(), weight: 4 },
        Probability { symbol: "b".to_string(), weight: 2 },
        Probability { symbol: "c".to_string(), weight: 1 },
    ];
    Model::new(probabilities, 8).unwrap()
}

fn syms(v: Vec<&str>) -> Vec<String> {
    v.into_iter().map(|s| s.to_string()).collect()
}

fn bounds(r: Result<(Fraction, Fraction), UnknownSymbolError>) -> (f32, f32) {
    let (low, high) = r.unwrap();
    (
        low.num as f32 / low.den as f32,
        high.num as f32 / high.den as f32,
    )
}

fn frac_of(x: f32) -> Fraction {
    Fraction {
        num: (x * 1048576.0) as u64,
        den: 1048576,
    }
}

#[test]
fn test_encode() {
    let model = dyadic_model();

    assert_eq!((0.0, 0.5), bounds(encode(&model, syms(vec!["a"]))));
    assert_eq!((0.5, 0.75), bounds(encode(&model, syms(vec!["b"]))));
    assert_eq!((0.75, 0.875), bounds(encode(&model, syms(vec!["c"]))));
    assert_eq!((0.0, 0.25), bounds(encode(&model, syms(vec!["a", "a"]))));
    assert_eq!((0.25, 0.375), bounds(encode(&model, syms(vec!["a", "b"]))));
    assert_eq!((0.5, 0.625), bounds(encode(&model, syms(vec!["b", "a"]))));
    assert_eq!((0.8125, 0.84375), bounds(encode(&model, syms(vec!["c", "b"]))));
    assert_eq!(
        (0.34375, 0.359375),
        bounds(encode(&model, syms(vec!["a", "b", "c"])))
    );
    assert_eq!(
        (0.8125, 0.828125),
        bounds(encode(&model, syms(vec!["c", "b", "a"])))
    );
}

#[test]
fn test_decode() {
    let model = dyadic_model();

    assert_eq!(vec!["a"], decode(&model, frac_of(0.0), frac_of(0.5)));
    assert_eq!(vec!["b"], decode(&model, frac_of(0.5), frac_of(0.75)));
    assert_eq!(vec!["c"], decode(&model, frac_of(0.75), frac_of(0.875)));
    assert_eq!(vec!["a", "a"], decode(&model, frac_of(0.0), frac_of(0.25)));
    assert_eq!(vec!["a", "b"], decode(&model, frac_of(0.25), frac_of(0.375)));
    assert_eq!(vec!["b", "a"], decode(&model, frac_of(0.5), frac_of(0.625)));
    assert_eq!(
        vec!["c", "b"],
        decode(&model, frac_of(0.8125), frac_of(0.84375))
    );
    assert_eq!(
        vec!["a", "b", "c"],
        decode(&model, frac_of(0.34375), frac_of(0.359375))
    );
    assert_eq!(
        vec!["c", "b", "a"],
        decode(&model, frac_of(0.8125), frac_of(0.828125))
    );
}
