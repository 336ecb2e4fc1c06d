use arithmetic_coding::{decode, encode, Fraction, Model, ModelError, Probability};

fn dyadic_model() -> Model {
    let probabilities = vec![
        Probability { symbol: "a".to_string(), weight: 4 },
        Probability { symbol: "b".to_string(), weight: 2 },
        Probability { symbol: "c".to_string(), weight: 1 },
    ];
    Model::new(probabilities, 8).unwrap()
}

fn syms(v: Vec<&str>) -> Vec<String> {
    v.into_iter().map(|s| s.to_string()).collect()
}

#[test]
fn test_encode_empty_returns_unit_interval() {
    let model = dyadic_model();
    let (low, high) = encode(&model, Vec::new()).unwrap();
    assert_eq!((0, 1), (low.num, low.den));
    assert_eq!((1, 1), (high.num, high.den));
    assert_eq!((0.0, 1.0), (low.num as f32 / low.den as f32, high.num as f32 / high.den as f32));
}

#[test]
fn test_encode_single_symbol_returns_its_range() {
    let model = dyadic_model();
    let (low, high) = encode(&model, syms(vec!["b"])).unwrap();
    assert_eq!(model.entries[1].range.start, low.num);
    assert_eq!(model.entries[1].range.end, high.num);
    assert_eq!(model.unit, low.den);
    assert_eq!(model.unit, high.den);
}

#[test]
fn test_model_layout_follows_input_order() {
    let model = dyadic_model();
    assert_eq!(3, model.entries.len());
    assert_eq!(8, model.unit);
    assert_eq!(("a", 0, 4, 4), ent(&model, 0));
    assert_eq!(("b", 4, 6, 2), ent(&model, 1));
    assert_eq!(("c", 6, 7, 1), ent(&model, 2));
}

fn ent(model: &Model, i: usize) -> (&str, u64, u64, u64) {
    let e = &model.entries[i];
    (e.symbol.as_str(), e.range.start, e.range.end, e.weight)
}

#[test]
fn test_model_rejects_weights_beyond_unit() {
    let probabilities = vec![
        Probability { symbol: "a".to_string(), weight: 5 },
        Probability { symbol: "b".to_string(), weight: 4 },
    ];
    let r = Model::new(probabilities, 8);
    assert!(matches!(r, Err(ModelError::RangeExceeded)));
}

#[test]
fn test_model_rejects_unrepresentable_total() {
    let probabilities = vec![
        Probability { symbol: "a".to_string(), weight: u64::MAX },
        Probability { symbol: "b".to_string(), weight: 1 },
    ];
    let r = Model::new(probabilities, u64::MAX);
    assert!(matches!(r, Err(ModelError::Overflow)));
}

#[test]
fn test_encode_unknown_symbol_fails() {
    let model = dyadic_model();
    assert!(encode(&model, syms(vec!["a", "z"])).is_err());
}

#[test]
fn test_round_trip() {
    let model = dyadic_model();
    let input = syms(vec!["b", "a", "c", "c", "a", "b"]);
    let (low, high) = encode(&model, input.clone()).unwrap();
    assert_eq!(input, decode(&model, low, high));
}

#[test]
fn test_decode_dead_zone_is_empty() {
    let model = dyadic_model();
    let start = Fraction { num: 15, den: 16 };
    let end = Fraction { num: 1, den: 1 };
    let decoded: Vec<String> = decode(&model, start, end);
    assert!(decoded.is_empty());
}

#[test]
fn test_zero_weight_symbol_gets_empty_range() {
    let probabilities = vec![
        Probability { symbol: "a".to_string(), weight: 1 },
        Probability { symbol: "never".to_string(), weight: 0 },
    ];
    let model = Model::new(probabilities, 2).unwrap();
    let (low, high) = encode(&model, syms(vec!["never"])).unwrap();
    assert_eq!(low.num, high.num);
    assert_eq!(low.den, high.den);
}

#[test]
fn test_duplicate_symbol_first_entry_wins() {
    let probabilities = vec![
        Probability { symbol: "a".to_string(), weight: 2 },
        Probability { symbol: "a".to_string(), weight: 1 },
    ];
    let model = Model::new(probabilities, 4).unwrap();
    let (low, high) = encode(&model, syms(vec!["a"])).unwrap();
    assert_eq!((0, 2, 4), (low.num, high.num, high.den));
    assert_eq!(vec!["a"], decode(&model, low, high));
}

#[test]
fn test_overflow_detected_at_later_entry() {
    let probabilities = vec![
        Probability { symbol: "a".to_string(), weight: u64::MAX - 1 },
        Probability { symbol: "b".to_string(), weight: 1 },
        Probability { symbol: "c".to_string(), weight: 1 },
    ];
    let r = Model::new(probabilities, u64::MAX);
    assert!(matches!(r, Err(ModelError::Overflow)));
}

#[test]
fn test_non_dyadic_unit() {
    let probabilities = vec![
        Probability { symbol: "x".to_string(), weight: 1 },
        Probability { symbol: "y".to_string(), weight: 1 },
        Probability { symbol: "z".to_string(), weight: 1 },
    ];
    let model = Model::new(probabilities, 3).unwrap();
    let input = syms(vec!["z", "x", "y"]);
    let (low, high) = encode(&model, input.clone()).unwrap();
    assert_eq!((2 * 9 + 0 * 3 + 1, 27), (low.num, low.den));
    assert_eq!((2 * 9 + 0 * 3 + 2, 27), (high.num, high.den));
    assert_eq!(input, decode(&model, low, high));
}
