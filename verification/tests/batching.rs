use steam_friends::steam_api::{chunk_ids, ids_query, u64_to_decimal, SteamId, PROFILE_BATCH_SIZE};

#[test]
fn decimal_rendering_exact_values() {
    assert_eq!("0", u64_to_decimal(0));
    assert_eq!("7", u64_to_decimal(7));
    assert_eq!("40", u64_to_decimal(40));
    assert_eq!("76561197996714010", u64_to_decimal(76561197996714010));
    assert_eq!("18446744073709551615", u64_to_decimal(u64::MAX));
    assert_eq!("123", SteamId(123).to_decimal());
}

#[test]
fn ids_query_joins_with_commas() {
    assert_eq!("", ids_query(&Vec::new()));
    assert_eq!("5", ids_query(&vec![SteamId(5)]));
    assert_eq!("1,2,3", ids_query(&vec![SteamId(1), SteamId(2), SteamId(3)]));
    assert_eq!("10,0", ids_query(&vec![SteamId(10), SteamId(0)]));
}

#[test]
fn chunk_ids_empty_input() {
    let chunks = chunk_ids(&Vec::new());
    assert_eq!(0, chunks.len());
}

#[test]
fn chunk_ids_single_partial_batch() {
    let ids: Vec<SteamId> = (0..3).map(SteamId).collect();
    let chunks = chunk_ids(&ids);
    assert_eq!(1, chunks.len());
    assert_eq!(ids, chunks[0]);
}

#[test]
fn chunk_ids_exact_batch() {
    let ids: Vec<SteamId> = (0..PROFILE_BATCH_SIZE as u64).map(SteamId).collect();
    let chunks = chunk_ids(&ids);
    assert_eq!(1, chunks.len());
    assert_eq!(ids, chunks[0]);
}

#[test]
fn chunk_ids_batch_and_remainder() {
    let ids: Vec<SteamId> = (0..101).map(SteamId).collect();
    let chunks = chunk_ids(&ids);
    assert_eq!(2, chunks.len());
    assert_eq!(100, chunks[0].len());
    assert_eq!(1, chunks[1].len());
    assert_eq!(SteamId(100), chunks[1][0]);
}

#[test]
fn chunk_ids_preserves_order_across_batches() {
    let ids: Vec<SteamId> = (0..250).map(SteamId).collect();
    let chunks = chunk_ids(&ids);
    assert_eq!(3, chunks.len());
    assert_eq!(100, chunks[0].len());
    assert_eq!(100, chunks[1].len());
    assert_eq!(50, chunks[2].len());
    let flat: Vec<SteamId> = chunks.into_iter().flatten().collect();
    assert_eq!(ids, flat);
}
