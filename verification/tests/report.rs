use conserve::report::Report;

#[test]
pub fn count() {
    let mut r = Report::new();
    assert_eq!(r.get_count("block.read.count"), 0);
    r.increment("block.read.count", 1);
    assert_eq!(r.get_count("block.read.count"), 1);
    r.increment("block.read.count", 10);
    assert_eq!(r.get_count("block.read.count"), 11);
}

#[test]
pub fn merge_reports() {
    let mut r1 = Report::new();
    let mut r2 = Report::new();
    r1.increment("block.read.count", 1);
    r1.increment("block.read.corrupt", 2);
    r2.increment("block.write.count", 1);
    r2.increment("block.read.corrupt", 10);
    r1.merge_from(&r2);
    assert_eq!(r1.get_count("block.read.count"), 1);
    assert_eq!(r1.get_count("block.read.corrupt"), 12);
    assert_eq!(r1.get_count("block.write.count"), 1);
}

#[test]
pub fn unknown_counter_reads_zero() {
    let mut r = Report::new();
    r.increment("block.write", 3);
    assert_eq!(r.get_count("no.such.counter"), 0);
    assert_eq!(r.get_count("block.write"), 3);
    assert_eq!(r.get_count("block.already_present"), 0);
}

#[test]
pub fn clone_keeps_counts() {
    let mut r = Report::new();
    r.increment("file.large", 7);
    let copy = r.clone();
    r.increment("file.large", 1);
    assert_eq!(copy.get_count("file.large"), 7);
    assert_eq!(r.get_count("file.large"), 8);
}
