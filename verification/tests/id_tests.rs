use automancy::id::Id;

#[test]
fn id_round_trips_through_usize() {
    let id = Id::from(17usize);
    assert_eq!(usize::from(id), 17);
    assert_eq!(id.to_usize(), 17);
}

#[test]
fn every_index_is_a_valid_symbol() {
    assert_eq!(Id::try_from_usize(0), Some(Id(0)));
    assert_eq!(Id::try_from_usize(usize::MAX), Some(Id(usize::MAX)));
}
