use ord::Epoch;
use ord::Height;
use ord::Ordinal;
use ord::ParseError;
use ord::Rarity;
use ord::COIN_VALUE;
use ord::CYCLE_EPOCHS;
use ord::DIFFCHANGE_INTERVAL;
use ord::SUBSIDY_HALVING_INTERVAL;

fn parse(s: &str) -> Result<Ordinal, ParseError> {
    Ordinal::from_str(s)
}

#[test]
fn n() {
    assert_eq!(Ordinal(1).n(), 1);
    assert_eq!(Ordinal(100).n(), 100);
}

#[test]
fn height() {
    assert_eq!(Ordinal(0).height().n(), 0);
    assert_eq!(Ordinal(1).height().n(), 0);
    assert_eq!(Ordinal(Epoch(0).subsidy()).height().n(), 1);
    assert_eq!(Ordinal(Epoch(0).subsidy() * 2).height().n(), 2);
    assert_eq!(
        Epoch(2).starting_ordinal().height().n(),
        SUBSIDY_HALVING_INTERVAL * 2
    );
    assert_eq!(Ordinal(50 * COIN_VALUE).height().n(), 1);
    assert_eq!(Ordinal(2099999997689999).height().n(), 6929999);
    assert_eq!(Ordinal(2099999997689998).height().n(), 6929998);
}

#[test]
fn name() {
    assert_eq!(Ordinal(0).name(), "nvtdijuwxlp");
    assert_eq!(Ordinal(1).name(), "nvtdijuwxlo");
    assert_eq!(Ordinal(26).name(), "nvtdijuwxkp");
    assert_eq!(Ordinal(27).name(), "nvtdijuwxko");
    assert_eq!(Ordinal(2099999997689999).name(), "a");
    assert_eq!(Ordinal(2099999997689999 - 1).name(), "b");
    assert_eq!(Ordinal(2099999997689999 - 25).name(), "z");
    assert_eq!(Ordinal(2099999997689999 - 26).name(), "aa");
}

#[test]
fn number() {
    assert_eq!(Ordinal(2099999997689999).n(), 2099999997689999);
}

#[test]
fn degree() {
    assert_eq!(Ordinal(0).degree().to_string(), "0°0′0″0‴");
    assert_eq!(Ordinal(1).degree().to_string(), "0°0′0″1‴");
    assert_eq!(
        Ordinal(50 * COIN_VALUE - 1).degree().to_string(),
        "0°0′0″4999999999‴"
    );
    assert_eq!(Ordinal(50 * COIN_VALUE).degree().to_string(), "0°1′1″0‴");
    assert_eq!(
        Ordinal(50 * COIN_VALUE + 1).degree().to_string(),
        "0°1′1″1‴"
    );
    assert_eq!(
        Ordinal(50 * COIN_VALUE * DIFFCHANGE_INTERVAL - 1)
            .degree()
            .to_string(),
        "0°2015′2015″4999999999‴"
    );
    assert_eq!(
        Ordinal(50 * COIN_VALUE * DIFFCHANGE_INTERVAL)
            .degree()
            .to_string(),
        "0°2016′0″0‴"
    );
    assert_eq!(
        Ordinal(50 * COIN_VALUE * DIFFCHANGE_INTERVAL + 1)
            .degree()
            .to_string(),
        "0°2016′0″1‴"
    );
    assert_eq!(
        Ordinal(50 * COIN_VALUE * SUBSIDY_HALVING_INTERVAL - 1)
            .degree()
            .to_string(),
        "0°209999′335″4999999999‴"
    );
    assert_eq!(
        Ordinal(50 * COIN_VALUE * SUBSIDY_HALVING_INTERVAL)
            .degree()
            .to_string(),
        "0°0′336″0‴"
    );
    assert_eq!(
        Ordinal(50 * COIN_VALUE * SUBSIDY_HALVING_INTERVAL + 1)
            .degree()
            .to_string(),
        "0°0′336″1‴"
    );
    assert_eq!(
        Ordinal(2067187500000000 - 1).degree().to_string(),
        "0°209999′2015″156249999‴"
    );
    assert_eq!(Ordinal(2067187500000000).degree().to_string(), "1°0′0″0‴");
    assert_eq!(
        Ordinal(2067187500000000 + 1).degree().to_string(),
        "1°0′0″1‴"
    );
}

#[test]
fn invalid_degree_bugfix() {
    assert_eq!(
        Ordinal(1054200000000000).degree().to_string(),
        "0°1680′0″0‴"
    );
    assert_eq!(parse("0°1680′0″0‴").unwrap(), Ordinal(1054200000000000));
    assert_eq!(
        Ordinal(1914226250000000).degree().to_string(),
        "0°122762′794″0‴"
    );
    assert_eq!(parse("0°122762′794″0‴").unwrap(), Ordinal(1914226250000000));
}

#[test]
fn period() {
    assert_eq!(Ordinal(0).period(), 0);
    assert_eq!(Ordinal(10080000000000).period(), 1);
    assert_eq!(Ordinal(2099999997689999).period(), 3437);
    assert_eq!(Ordinal(10075000000000).period(), 0);
    assert_eq!(Ordinal(10080000000000 - 1).period(), 0);
    assert_eq!(Ordinal(10080000000000).period(), 1);
    assert_eq!(Ordinal(10080000000000 + 1).period(), 1);
    assert_eq!(Ordinal(10085000000000).period(), 1);
    assert_eq!(Ordinal(2099999997689999).period(), 3437);
}

#[test]
fn epoch() {
    assert_eq!(Ordinal(0).epoch().n(), 0);
    assert_eq!(Ordinal(1).epoch().n(), 0);
    assert_eq!(
        Ordinal(50 * COIN_VALUE * SUBSIDY_HALVING_INTERVAL).epoch().n(),
        1
    );
    assert_eq!(Ordinal(2099999997689999).epoch().n(), 32);
}

#[test]
fn epoch_position() {
    assert_eq!(Epoch(0).starting_ordinal().epoch_position(), 0);
    assert_eq!(
        Ordinal(Epoch(0).starting_ordinal().n() + 100).epoch_position(),
        100
    );
    assert_eq!(Epoch(1).starting_ordinal().epoch_position(), 0);
    assert_eq!(Epoch(2).starting_ordinal().epoch_position(), 0);
}

#[test]
fn subsidy_position() {
    assert_eq!(Ordinal(0).third(), 0);
    assert_eq!(Ordinal(1).third(), 1);
    assert_eq!(
        Ordinal(Height(0).subsidy() - 1).third(),
        Height(0).subsidy() - 1
    );
    assert_eq!(Ordinal(Height(0).subsidy()).third(), 0);
    assert_eq!(Ordinal(Height(0).subsidy() + 1).third(), 1);
    assert_eq!(
        Ordinal(Epoch(1).starting_ordinal().n() + Epoch(1).subsidy()).third(),
        0
    );
    assert_eq!(Ordinal::last().third(), 0);
}

#[test]
fn supply() {
    let mut mined = 0;

    for height in 0.. {
        let subsidy = Height(height).subsidy();

        if subsidy == 0 {
            break;
        }

        mined += subsidy;
    }

    assert_eq!(Ordinal::SUPPLY, mined);
}

#[test]
fn last() {
    assert_eq!(Ordinal::last().n(), Ordinal::SUPPLY - 1);
}

#[test]
fn eq() {
    assert_eq!(Ordinal(0), 0);
    assert_eq!(Ordinal(1), 1);
}

#[test]
fn partial_ord() {
    assert!(Ordinal(1) > 0);
    assert!(Ordinal(0) < 1);
}

#[test]
fn add() {
    assert_eq!(Ordinal(0) + 1, 1);
    assert_eq!(Ordinal(1) + 100, 101);
}

#[test]
fn from_str_decimal() {
    assert_eq!(parse("0.0").unwrap(), Ordinal(0));
    assert_eq!(parse("0.1").unwrap(), Ordinal(1));
    assert_eq!(parse("1.0").unwrap(), Ordinal(50 * COIN_VALUE));
    assert_eq!(parse("6929999.0").unwrap(), Ordinal(2099999997689999));
    assert!(parse("0.5000000000").is_err());
    assert!(parse("6930000.0").is_err());
}

#[test]
fn from_str_degree() {
    assert_eq!(parse("0°0′0″0‴").unwrap(), Ordinal(0));
    assert_eq!(parse("0°0′0″").unwrap(), Ordinal(0));
    assert_eq!(parse("0°0′0″1‴").unwrap(), Ordinal(1));
    assert_eq!(parse("0°2015′2015″0‴").unwrap(), Ordinal(10075000000000));
    assert_eq!(parse("0°2016′0″0‴").unwrap(), Ordinal(10080000000000));
    assert_eq!(parse("0°2017′1″0‴").unwrap(), Ordinal(10085000000000));
    assert_eq!(parse("0°2016′0″1‴").unwrap(), Ordinal(10080000000001));
    assert_eq!(parse("0°2017′1″1‴").unwrap(), Ordinal(10085000000001));
    assert_eq!(parse("0°209999′335″0‴").unwrap(), Ordinal(1049995000000000));
    assert_eq!(parse("0°0′336″0‴").unwrap(), Ordinal(1050000000000000));
    assert_eq!(parse("0°0′672″0‴").unwrap(), Ordinal(1575000000000000));
    assert_eq!(
        parse("0°209999′1007″0‴").unwrap(),
        Ordinal(1837498750000000)
    );
    assert_eq!(parse("0°0′1008″0‴").unwrap(), Ordinal(1837500000000000));
    assert_eq!(parse("1°0′0″0‴").unwrap(), Ordinal(2067187500000000));
    assert_eq!(parse("2°0′0″0‴").unwrap(), Ordinal(2099487304530000));
    assert_eq!(parse("3°0′0″0‴").unwrap(), Ordinal(2099991988080000));
    assert_eq!(parse("4°0′0″0‴").unwrap(), Ordinal(2099999873370000));
    assert_eq!(parse("5°0′0″0‴").unwrap(), Ordinal(2099999996220000));
    assert_eq!(parse("5°0′336″0‴").unwrap(), Ordinal(2099999997060000));
    assert_eq!(parse("5°0′672″0‴").unwrap(), Ordinal(2099999997480000));
    assert_eq!(parse("5°1′673″0‴").unwrap(), Ordinal(2099999997480001));
    assert_eq!(
        parse("5°209999′1007″0‴").unwrap(),
        Ordinal(2099999997689999)
    );
}

#[test]
fn from_str_number() {
    assert_eq!(parse("0").unwrap(), Ordinal(0));
    assert_eq!(parse("2099999997689999").unwrap(), Ordinal(2099999997689999));
    assert!(parse("2099999997690000").is_err());
}

#[test]
fn from_str_degree_invalid_cycle_number() {
    assert!(parse("5°0′0″0‴").is_ok());
    assert!(parse("6°0′0″0‴").is_err());
}

#[test]
fn from_str_degree_invalid_epoch_offset() {
    assert!(parse("0°209999′335″0‴").is_ok());
    assert!(parse("0°210000′336″0‴").is_err());
}

#[test]
fn from_str_degree_invalid_period_offset() {
    assert!(parse("0°2015′2015″0‴").is_ok());
    assert!(parse("0°2016′2016″0‴").is_err());
}

#[test]
fn from_str_degree_invalid_block_offset() {
    assert!(parse("0°0′0″4999999999‴").is_ok());
    assert!(parse("0°0′0″5000000000‴").is_err());
    assert!(parse("0°209999′335″4999999999‴").is_ok());
    assert!(parse("0°0′336″4999999999‴").is_err());
}

#[test]
fn from_str_degree_invalid_period_block_relationship() {
    assert!(parse("0°2015′2015″0‴").is_ok());
    assert!(parse("0°2016′0″0‴").is_ok());
    assert!(parse("0°2016′1″0‴").is_err());
    assert!(parse("0°0′336″0‴").is_ok());
}

#[test]
fn from_str_degree_post_distribution() {
    assert!(parse("5°209999′1007″0‴").is_ok());
    assert!(parse("5°0′1008″0‴").is_err());
}

#[test]
fn from_str_name() {
    assert_eq!(parse("nvtdijuwxlp").unwrap(), Ordinal(0));
    assert_eq!(parse("a").unwrap(), Ordinal(2099999997689999));
    assert!(parse("(").is_err());
    assert!(parse("").is_err());
    assert!(parse("nvtdijuwxlq").is_err());
}

#[test]
fn cycle() {
    assert_eq!(
        SUBSIDY_HALVING_INTERVAL * CYCLE_EPOCHS % DIFFCHANGE_INTERVAL,
        0
    );

    for i in 1..CYCLE_EPOCHS {
        assert_ne!(i * SUBSIDY_HALVING_INTERVAL % DIFFCHANGE_INTERVAL, 0);
    }

    assert_eq!(
        CYCLE_EPOCHS * SUBSIDY_HALVING_INTERVAL % DIFFCHANGE_INTERVAL,
        0
    );

    assert_eq!(Ordinal(0).cycle(), 0);
    assert_eq!(Ordinal(2067187500000000 - 1).cycle(), 0);
    assert_eq!(Ordinal(2067187500000000).cycle(), 1);
    assert_eq!(Ordinal(2067187500000000 + 1).cycle(), 1);
}

#[test]
fn third() {
    assert_eq!(Ordinal(0).third(), 0);
    assert_eq!(Ordinal(50 * COIN_VALUE - 1).third(), 4999999999);
    assert_eq!(Ordinal(50 * COIN_VALUE).third(), 0);
    assert_eq!(Ordinal(50 * COIN_VALUE + 1).third(), 1);
}

#[test]
fn is_common() {
    fn case(n: u64) {
        assert_eq!(
            Ordinal(n).is_common(),
            Ordinal(n).rarity() == Rarity::Common
        );
    }

    case(0);
    case(1);
    case(50 * COIN_VALUE - 1);
    case(50 * COIN_VALUE);
    case(50 * COIN_VALUE + 1);
    case(2067187500000000 - 1);
    case(2067187500000000);
    case(2067187500000000 + 1);
}

#[test]
fn rarity_of_boundaries() {
    assert_eq!(Ordinal(0).rarity(), Rarity::Mythic);
    assert_eq!(Ordinal(1).rarity(), Rarity::Common);
    assert_eq!(Ordinal(50 * COIN_VALUE).rarity(), Rarity::Uncommon);
    assert_eq!(
        Ordinal(50 * COIN_VALUE * DIFFCHANGE_INTERVAL).rarity(),
        Rarity::Rare
    );
    assert_eq!(
        Epoch(1).starting_ordinal().rarity(),
        Rarity::Epic
    );
    assert_eq!(Ordinal(2067187500000000).rarity(), Rarity::Legendary);
}

#[test]
fn name_round_trips() {
    for n in [
        0,
        1,
        25,
        26,
        27,
        675,
        676,
        1_000_000,
        2099999997689999 / 2,
        2099999997689998,
        2099999997689999,
    ] {
        assert_eq!(parse(&Ordinal(n).name()).unwrap(), Ordinal(n));
    }
}

#[test]
fn decimal_round_trips() {
    for n in [
        0,
        1,
        4999999999,
        5000000000,
        1050000000000000,
        2067187500000000,
        2099999997689999,
    ] {
        assert_eq!(parse(&Ordinal(n).decimal().to_string()).unwrap(), Ordinal(n));
    }
}

#[test]
fn degree_round_trips() {
    for n in [
        0,
        1,
        4999999999,
        5000000000,
        10080000000000,
        1049995000000000,
        1050000000000000,
        1054200000000000,
        1914226250000000,
        2067187500000000,
        2099999997689999,
    ] {
        assert_eq!(parse(&Ordinal(n).degree().to_string()).unwrap(), Ordinal(n));
    }
}

#[test]
fn decimal_text() {
    assert_eq!(Ordinal(0).decimal().to_string(), "0.0");
    assert_eq!(Ordinal(1).decimal().to_string(), "0.1");
    assert_eq!(Ordinal(2099999997689999).decimal().to_string(), "6929999.0");
}

#[test]
fn percentile_notation_is_not_parsed_here() {
    assert!(parse("0%").is_err());
    assert!(parse("-1%").is_err());
    assert!(parse("101%").is_err());
}

#[test]
fn parse_error_has_message() {
    let err = parse("(").unwrap_err();
    assert!(!err.message.is_empty());
}

#[test]
fn range_title() {
    assert_eq!(
        ord::RangeHtml {
            start: Ordinal(0),
            end: Ordinal(1),
        }
        .title(),
        "Ordinal range 0–1"
    );
    assert_eq!(
        ord::RangeHtml {
            start: Ordinal(1),
            end: Ordinal(10),
        }
        .title(),
        "Ordinal range 1–10"
    );
}

#[test]
fn plain_numerals_follow_integer_parsing() {
    assert_eq!(parse("+5").unwrap(), Ordinal(5));
    assert_eq!(parse("005").unwrap(), Ordinal(5));
    assert!(parse("5 ").is_err());
    assert!(parse("++5").is_err());
    assert!(parse("-5").is_err());
    assert!(parse("").is_err());
}

#[test]
fn degree_rejects_trailing_characters() {
    assert!(parse("0°0′0″0‴x").is_err());
    assert!(parse("0°0′0″x").is_err());
    assert!(parse("0°0′0″0‴‴").is_err());
}

#[test]
fn decimal_rejects_malformed_fields() {
    assert!(parse("1".repeat(30).as_str()).is_err());
    assert!(parse("0..0").is_err());
    assert!(parse(".0").is_err());
    assert!(parse("0.").is_err());
}

#[test]
fn name_decode_requires_a_valid_identifier() {
    assert!(Ordinal::from_name("").is_err());
    assert!(Ordinal::from_name("nvtdijuwxlq").is_err());
    assert_eq!(
        Ordinal::from_name("a").unwrap(),
        Ordinal(Ordinal::SUPPLY - 1)
    );
    assert_eq!(Ordinal::from_name("nvtdijuwxlp").unwrap(), Ordinal(0));
}
