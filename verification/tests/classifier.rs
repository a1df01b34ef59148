use rustml::bayes_classifier::{Counts, NaiveBayesClassifier, Score, Tokenize};

const CAT: u64 = 0;
const DOG: u64 = 1;

#[test]
fn registry_order_and_dedup() {
    let mut nb = NaiveBayesClassifier::new();
    nb.train(3, "x".to_string());
    nb.train(1, "y".to_string());
    nb.train(3, "z".to_string());
    nb.train(2, "w".to_string());
    assert_eq!(nb.classes, vec![3, 1, 2]);
}

#[test]
fn empty_training_is_a_noop() {
    let mut nb = NaiveBayesClassifier::new();
    nb.train(CAT, "a".to_string());
    let before = nb.analyze("a".to_string());
    nb.train(DOG, "".to_string());
    nb.train(DOG, "123 !!".to_string());
    assert_eq!(nb.classes, vec![CAT]);
    let after = nb.analyze("a".to_string());
    assert_eq!(before, after);
}

#[test]
fn untrained_tokens_give_empty_map() {
    let mut nb = NaiveBayesClassifier::new();
    nb.train(CAT, "a".to_string());
    let scores = nb.analyze("xyz q".to_string());
    assert!(scores.is_empty());
}

#[test]
fn analyze_before_training_is_empty() {
    let nb = NaiveBayesClassifier::new();
    let scores = nb.analyze("anything at all".to_string());
    assert!(scores.is_empty());
}

#[test]
fn fallback_is_one_hundredth() {
    let mut nb = NaiveBayesClassifier::new();
    nb.train(CAT, "a".to_string());
    nb.train(DOG, "b".to_string());
    let scores = nb.analyze("a".to_string());
    // "a" was trained only under CAT: CAT gets the clamped 99/100, DOG the
    // fallback 1/100; both are multiplied by the prior 1/2.
    assert_eq!(scores, vec![
        (CAT, Score { num: 99, den: 200 }),
        (DOG, Score { num: 1, den: 200 }),
    ]);
}

#[test]
fn clamp_is_ninety_nine_hundredths() {
    let mut nb = NaiveBayesClassifier::new();
    nb.train(7, "a".to_string());
    let scores = nb.analyze("a".to_string());
    // The only class holds every occurrence of "a": the pre-prior value is
    // clamped to 99/100, and the prior is 1/1.
    assert_eq!(scores, vec![(7, Score { num: 99, den: 100 })]);
}

#[test]
fn end_to_end_cat_and_dog() {
    let mut nb = NaiveBayesClassifier::new();
    nb.train(CAT, "a a a".to_string());
    nb.train(DOG, "b b b".to_string());
    let scores = nb.analyze("a".to_string());
    // CAT: clamp 99/100 times prior 3/6; DOG: fallback 1/100 times prior 3/6,
    // that is 0.01 * 0.5 = 0.005 exactly.
    assert_eq!(scores, vec![
        (CAT, Score { num: 297, den: 600 }),
        (DOG, Score { num: 3, den: 600 }),
    ]);
    let cat = scores[0].1;
    let dog = scores[1].1;
    assert!(cat.num * dog.den > dog.num * cat.den);
    assert_eq!(dog.num as f64 / dog.den as f64, 0.01 * 0.5);
}

#[test]
fn tie_breaks_to_first_registered_class() {
    let mut nb = NaiveBayesClassifier::new();
    nb.train(CAT, "a".to_string());
    nb.train(DOG, "a".to_string());
    let scores = nb.analyze("a".to_string());
    // Both classes score 1/2 * 1/2 = 1/4.
    assert_eq!(scores, vec![
        (CAT, Score { num: 1, den: 4 }),
        (DOG, Score { num: 1, den: 4 }),
    ]);
    // A max-picking caller that replaces only on strict improvement keeps the
    // class registered first.
    let mut best: Option<(u64, Score)> = None;
    for &(class, score) in scores.iter() {
        best = match best {
            None => Some((class, score)),
            Some((bc, bs)) => {
                if score.num * bs.den > bs.num * score.den {
                    Some((class, score))
                } else {
                    Some((bc, bs))
                }
            }
        };
    }
    assert_eq!(best.map(|b| b.0), Some(CAT));
}

#[test]
fn long_query_underflows_to_zero() {
    let mut nb = NaiveBayesClassifier::new();
    let doc = "a b c d e f g h i j k l m n o p q r s t";
    nb.train(CAT, doc.to_string());
    // Twenty seen tokens contribute a factor 99/100 each, and the exact
    // denominator 100^20 * 20 no longer fits in u128: the score underflows.
    let scores = nb.analyze(doc.to_string());
    assert_eq!(scores, vec![(CAT, Score { num: 0, den: 1 })]);
}

#[test]
fn scores_accumulate_over_repeated_training() {
    let mut nb = NaiveBayesClassifier::new();
    nb.train(CAT, "a b".to_string());
    nb.train(CAT, "a b".to_string());
    nb.train(DOG, "b".to_string());
    // "b" was trained 3 times in all: twice under CAT, once under DOG; the
    // global totals are 4 for CAT and 1 for DOG out of 5.
    let scores = nb.analyze("b".to_string());
    // CAT: 2/3 * 4/5; DOG: 1/3 * 1/5.
    assert_eq!(scores, vec![
        (CAT, Score { num: 8, den: 15 }),
        (DOG, Score { num: 1, den: 15 }),
    ]);
}

#[test]
fn unseen_tokens_are_skipped_not_penalizing() {
    let mut nb = NaiveBayesClassifier::new();
    nb.train(CAT, "a".to_string());
    let with_noise = nb.analyze("a zz qq".to_string());
    let alone = nb.analyze("a".to_string());
    assert_eq!(with_noise, alone);
}

#[test]
fn counts_record_lookup() {
    let c = Counts::new();
    assert_eq!(c.get(0), 0);
    assert_eq!(c.get(42), 0);
}

#[test]
fn tokenize_trait_is_usable_directly() {
    let toks = "Cat and Dog".to_string().tokenize();
    assert_eq!(toks, vec!["cat".to_string(), "and".to_string(), "dog".to_string()]);
}
