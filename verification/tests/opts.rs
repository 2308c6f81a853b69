use fastnbt::opts::DEFAULT_MAX_SEQ_LEN;
use fastnbt::DeOpts;

#[test]
fn default_bound_is_one_hundred_thousand() {
    assert_eq!(DEFAULT_MAX_SEQ_LEN, 100_000);
    assert_eq!(DeOpts::new().limit(), 100_000);
    assert_eq!(DeOpts::default().limit(), 100_000);
}

#[test]
fn builder_sets_the_bound() {
    assert_eq!(DeOpts::new().max_seq_len(5).limit(), 5);
    assert_eq!(DeOpts::new().max_seq_len(0).limit(), 0);
    assert_eq!(
        DeOpts::new().max_seq_len(7).max_seq_len(usize::MAX).limit(),
        usize::MAX
    );
}
