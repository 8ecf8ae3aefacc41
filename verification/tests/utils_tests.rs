use haste_map::utils::{chunk_size_for, get_chunk_size, skip_log_time};

#[test]
fn chunk_size_is_the_quotient() {
    assert_eq!(chunk_size_for(100, 4), 25);
    assert_eq!(chunk_size_for(103, 4), 25);
}

#[test]
fn chunk_size_is_at_least_one() {
    assert_eq!(chunk_size_for(0, 8), 1);
    assert_eq!(chunk_size_for(3, 8), 1);
}

#[test]
fn chunk_size_of_vector() {
    let v: Vec<u32> = (0..10).collect();
    assert_eq!(get_chunk_size(&v, 2), 5);
    assert_eq!(get_chunk_size(&v, 16), 1);
}

#[test]
fn skip_log_time_does_nothing() {
    skip_log_time(std::time::Instant::now(), "parsed files");
}
