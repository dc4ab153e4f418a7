use payment_hub::stats::{Data, Statistics, StatisticsState, ONE_DAY_NS};

fn data(login: u32, transfer: u32, origin_link: u32, origin_unlink: u32) -> Data {
    Data { login, transfer, origin_link, origin_unlink }
}

#[test]
fn merge_sums_every_counter() {
    let mut a = data(1, 2, 3, 4);
    a.merge(data(10, 20, 30, 40));
    assert_eq!(a, data(11, 22, 33, 44));
}

#[test]
fn reports_within_a_day_share_a_bucket() {
    let mut s = StatisticsState::default();
    s.increment_stats(data(1, 0, 0, 0), 100);
    s.increment_stats(data(2, 5, 0, 0), 100 + ONE_DAY_NS - 1);
    let buckets = s.get_stats();
    assert_eq!(buckets.len(), 1);
    assert_eq!(buckets[0], Statistics { timestamp: 100, data: data(3, 5, 0, 0) });
}

#[test]
fn a_report_a_day_later_opens_a_new_bucket() {
    let mut s = StatisticsState::new();
    s.increment_stats(data(1, 0, 0, 0), 100);
    s.increment_stats(data(2, 0, 0, 0), 100 + ONE_DAY_NS);
    let buckets = s.get_stats();
    assert_eq!(buckets.len(), 2);
    assert_eq!(buckets[0], Statistics { timestamp: 100, data: data(1, 0, 0, 0) });
    assert_eq!(
        buckets[1],
        Statistics { timestamp: 100 + ONE_DAY_NS, data: data(2, 0, 0, 0) }
    );
}
