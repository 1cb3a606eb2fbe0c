use ord::Address;
use ord::Error;
use ord::Ordinal;
use ord::OutPoint;
use ord::Transaction;
use ord::TransactionBuilder;
use ord::TxIn;
use ord::TxOut;
use ord::COIN_VALUE;

fn address(s: &str) -> Address {
    let parsed: bitcoin::Address = s.parse().unwrap();
    Address::new(parsed.script_pubkey().to_bytes())
}

fn recipient() -> Address {
    address("tb1q6en7qjxgw4ev8xwx94pzdry6a6ky7wlfeqzunz")
}

fn change(n: u64) -> Address {
    match n {
        0 => address("tb1qjsv26lap3ffssj6hfy8mzn0lg5vte6a42j75ww"),
        1 => address("tb1qakxxzv9n7706kc3xdcycrtfv8cqv62hnwexc0l"),
        _ => panic!(),
    }
}

fn outpoint(n: u64) -> OutPoint {
    OutPoint {
        txid0: n,
        txid1: 0,
        txid2: 0,
        txid3: 0,
        vout: n as u32,
    }
}

fn tx_in(previous_output: OutPoint) -> TxIn {
    TxIn { previous_output }
}

fn tx_out(value: u64, address: Address) -> TxOut {
    TxOut {
        value,
        script_pubkey: address.script_pubkey,
    }
}

#[test]
fn select_ordinal() {
    let mut utxos = vec![
        (outpoint(1), vec![(10_000, 15_000)]),
        (outpoint(2), vec![(51 * COIN_VALUE, 100 * COIN_VALUE)]),
        (outpoint(3), vec![(6_000, 8_000)]),
    ];

    let tx_builder = TransactionBuilder::new(
        utxos.clone(),
        Ordinal(51 * COIN_VALUE),
        recipient(),
        vec![change(0), change(1)],
    )
    .select_ordinal()
    .unwrap();

    utxos.remove(1);
    assert_eq!(
        tx_builder.utxos,
        utxos
            .iter()
            .map(|(outpoint, _ranges)| *outpoint)
            .collect::<Vec<OutPoint>>()
    );
    assert_eq!(tx_builder.inputs, [outpoint(2)]);
    assert_eq!(
        tx_builder.outputs,
        [(recipient(), 100 * COIN_VALUE - 51 * COIN_VALUE)]
    )
}

#[test]
fn tx_builder_to_transaction() {
    let ranges = vec![
        (outpoint(1), vec![(0, 5_000)]),
        (outpoint(2), vec![(10_000, 15_000)]),
        (outpoint(3), vec![(6_000, 8_000)]),
    ];

    let tx_builder = TransactionBuilder {
        ranges,
        utxos: Vec::new(),
        ordinal: Ordinal(0),
        recipient: recipient(),
        unused_change_addresses: vec![change(0), change(1)],
        change_addresses: vec![change(0), change(1)],
        inputs: vec![outpoint(1), outpoint(2), outpoint(3)],
        outputs: vec![
            (recipient(), 5_000),
            (change(0), 5_000),
            (change(1), 1_360),
        ],
    };

    assert_eq!(
        tx_builder.build(),
        Ok(Transaction {
            version: 1,
            lock_time: 0,
            input: vec![tx_in(outpoint(1)), tx_in(outpoint(2)), tx_in(outpoint(3))],
            output: vec![
                tx_out(5_000, recipient()),
                tx_out(5_000, change(0)),
                tx_out(1_360, change(1))
            ],
        })
    )
}

#[test]
fn deduct_fee() {
    let utxos = vec![(outpoint(1), vec![(10_000, 15_000)])];

    assert_eq!(
        TransactionBuilder::build_transaction(
            utxos,
            Ordinal(10_000),
            recipient(),
            vec![change(0), change(1)],
        )
        .unwrap(),
        Ok(Transaction {
            version: 1,
            lock_time: 0,
            input: vec![tx_in(outpoint(1))],
            output: vec![tx_out(4780, recipient())],
        })
    )
}

#[test]
fn additional_postage_added_when_required() {
    let utxos = vec![
        (outpoint(1), vec![(10_000, 15_000)]),
        (outpoint(2), vec![(5_000, 10_000)]),
    ];

    assert_eq!(
        TransactionBuilder::build_transaction(
            utxos,
            Ordinal(14_950),
            recipient(),
            vec![change(0), change(1)],
        )
        .unwrap(),
        Ok(Transaction {
            version: 1,
            lock_time: 0,
            input: vec![tx_in(outpoint(1)), tx_in(outpoint(2))],
            output: vec![tx_out(4_950, change(1)), tx_out(4_620, recipient())],
        })
    )
}

#[test]
fn insufficient_padding_to_add_postage_no_utxos() {
    let utxos = vec![(outpoint(1), vec![(10_000, 15_000)])];

    assert_eq!(
        TransactionBuilder::build_transaction(
            utxos,
            Ordinal(14_950),
            recipient(),
            vec![change(0), change(1)],
        )
        .unwrap(),
        Err(Error::NotEnoughCardinalUtxos),
    )
}

#[test]
fn insufficient_padding_to_add_postage_small_utxos() {
    let utxos = vec![
        (outpoint(1), vec![(10_000, 15_000)]),
        (outpoint(2), vec![(0, 1)]),
    ];

    assert_eq!(
        TransactionBuilder::build_transaction(
            utxos,
            Ordinal(14_950),
            recipient(),
            vec![change(0), change(1)],
        )
        .unwrap(),
        Err(Error::NotEnoughCardinalUtxos),
    )
}

#[test]
fn excess_additional_postage_is_stripped() {
    let utxos = vec![
        (outpoint(1), vec![(10_000, 15_000)]),
        (outpoint(2), vec![(15_000, 35_000)]),
    ];

    assert_eq!(
        TransactionBuilder::build_transaction(
            utxos,
            Ordinal(14_950),
            recipient(),
            vec![change(0), change(1)],
        )
        .unwrap(),
        Ok(Transaction {
            version: 1,
            lock_time: 0,
            input: vec![tx_in(outpoint(1)), tx_in(outpoint(2))],
            output: vec![
                tx_out(4_950, change(1)),
                tx_out(10_000, recipient()),
                tx_out(9_589, change(0)),
            ],
        })
    )
}

#[test]
fn excess_postage_is_stripped() {
    let utxos = vec![(outpoint(1), vec![(0, 1_000_000)])];

    assert_eq!(
        TransactionBuilder::build_transaction(
            utxos,
            Ordinal(0),
            recipient(),
            vec![change(0), change(1)]
        )
        .unwrap(),
        Ok(Transaction {
            version: 1,
            lock_time: 0,
            input: vec![tx_in(outpoint(1))],
            output: vec![
                tx_out(10_000, recipient()),
                tx_out(989_749, change(1))
            ],
        })
    )
}

#[test]
fn ordinal_is_aligned() {
    let utxos = vec![(outpoint(1), vec![(0, 10_000)])];

    assert_eq!(
        TransactionBuilder::build_transaction(
            utxos,
            Ordinal(3_333),
            recipient(),
            vec![change(0), change(1)]
        )
        .unwrap(),
        Ok(Transaction {
            version: 1,
            lock_time: 0,
            input: vec![tx_in(outpoint(1))],
            output: vec![tx_out(3_333, change(1)), tx_out(6_416, recipient())],
        })
    )
}

#[test]
fn alignment_output_under_dust_limit_is_padded() {
    let utxos = vec![
        (outpoint(1), vec![(0, 10_000)]),
        (outpoint(2), vec![(10_000, 20_000)]),
    ];

    assert_eq!(
        TransactionBuilder::build_transaction(
            utxos,
            Ordinal(1),
            recipient(),
            vec![change(0), change(1)]
        )
        .unwrap(),
        Ok(Transaction {
            version: 1,
            lock_time: 0,
            input: vec![tx_in(outpoint(2)), tx_in(outpoint(1))],
            output: vec![tx_out(10_001, change(1)), tx_out(9_569, recipient())],
        })
    )
}

#[test]
fn rare_ordinals_are_not_used_as_cardinal_inputs() {
    let utxos = vec![
        (outpoint(1), vec![(10_000, 15_000)]),
        (outpoint(2), vec![(0, 5_000)]),
        (outpoint(3), vec![(5_000, 10_000)]),
    ];

    assert_eq!(
        TransactionBuilder::build_transaction(
            utxos,
            Ordinal(14_950),
            recipient(),
            vec![change(0), change(1)],
        )
        .unwrap(),
        Ok(Transaction {
            version: 1,
            lock_time: 0,
            input: vec![tx_in(outpoint(1)), tx_in(outpoint(3))],
            output: vec![tx_out(4_950, change(1)), tx_out(4_620, recipient())],
        })
    )
}

#[test]
fn rare_ordinals_are_not_sent_to_recipient() {
    let utxos = vec![(outpoint(1), vec![(15_000, 25_000), (0, 10_000)])];

    assert_eq!(
        TransactionBuilder::build_transaction(
            utxos,
            Ordinal(24_000),
            recipient(),
            vec![change(0), change(1)],
        )
        .unwrap(),
        Err(Error::RareOrdinalLostToRecipient(Ordinal(0)))
    )
}

#[test]
fn rare_ordinals_are_not_sent_as_fee() {
    let utxos = vec![(outpoint(1), vec![(15_000, 25_000), (0, 100)])];

    assert_eq!(
        TransactionBuilder::build_transaction(
            utxos,
            Ordinal(24_000),
            recipient(),
            vec![change(0), change(1)],
        )
        .unwrap(),
        Err(Error::RareOrdinalLostToFee(Ordinal(0)))
    )
}

#[test]
fn missing_ordinal_is_reported() {
    let utxos = vec![(outpoint(1), vec![(10_000, 15_000)])];

    assert_eq!(
        TransactionBuilder::build_transaction(
            utxos,
            Ordinal(20_000),
            recipient(),
            vec![change(0), change(1)],
        )
        .unwrap(),
        Err(Error::NotInWallet(Ordinal(20_000)))
    )
}

#[test]
fn exhausted_change_addresses_end_construction() {
    let utxos = vec![(outpoint(1), vec![(0, 10_000)])];

    assert_eq!(
        TransactionBuilder::build_transaction(utxos, Ordinal(3_333), recipient(), Vec::new()),
        None,
    )
}

#[test]
fn error_messages_name_the_ordinal() {
    assert_eq!(
        Error::NotInWallet(Ordinal(21)).message(),
        "ordinal 21 not in wallet"
    );
    assert_eq!(
        Error::RareOrdinalLostToRecipient(Ordinal(7)).message(),
        "transaction would lose rare ordinal 7 to recipient"
    );
    assert_eq!(
        Error::RareOrdinalLostToFee(Ordinal(7)).message(),
        "transaction would lose rare ordinal 7 to fee"
    );
}

#[test]
fn building_twice_gives_identical_results() {
    let utxos = vec![(outpoint(1), vec![(0, 10_000)])];
    let first = TransactionBuilder::build_transaction(
        utxos.clone(),
        Ordinal(3_333),
        recipient(),
        vec![change(0), change(1)],
    );
    let second = TransactionBuilder::build_transaction(
        utxos,
        Ordinal(3_333),
        recipient(),
        vec![change(0), change(1)],
    );
    assert_eq!(first, second);
}
