//! What an observer of the link can count.

use dvpn::measure::{parse, summarize, to_csv, Packet, Summary};

/// Shannon entropy of the packet sizes, in bits.
fn size_entropy_bits(s: &Summary) -> f64 {
    let n = s.packets as f64;
    s.size_counts
        .values()
        .map(|&c| {
            let p = c as f64 / n;
            -p * p.log2()
        })
        .sum::<f64>()
        .max(0.0)
}

#[test]
fn a_single_size_trace_has_zero_size_entropy() {
    let packets: Vec<Packet> = (0..100)
        .map(|i| Packet { nanos: i * 1_000_000, sent: true, bytes: 1224 })
        .collect();
    let s = summarize(&packets);
    assert_eq!(s.unique_sizes, 1);
    assert!(size_entropy_bits(&s).abs() < 1e-9, "got {}", size_entropy_bits(&s));
}

#[test]
fn a_uniform_two_size_trace_has_one_bit() {
    let packets: Vec<Packet> = (0..100)
        .map(|i| Packet {
            nanos: i * 1_000_000,
            sent: true,
            bytes: if i % 2 == 0 { 40 } else { 1500 },
        })
        .collect();
    assert!((size_entropy_bits(&summarize(&packets)) - 1.0).abs() < 1e-9);
}

#[test]
fn bursts_are_counted_by_idle_gaps() {
    let packets = vec![
        Packet { nanos: 0, sent: true, bytes: 100 },
        Packet { nanos: 10_000_000, sent: true, bytes: 100 },
        Packet { nanos: 2_000_000_000, sent: true, bytes: 100 },
    ];
    assert_eq!(summarize(&packets).bursts, 2);
}

#[test]
fn parsing_accepts_the_two_column_simulator_format() {
    let p = parse("0,s\n1000,r\n").unwrap();
    assert_eq!(p.len(), 2);
    assert!(p[0].sent && !p[1].sent);
    assert_eq!(p[0].bytes, 0);
}

#[test]
fn a_malformed_line_is_an_error_not_a_silent_zero() {
    assert!(parse("banana,s,10\n").is_err());
    assert!(parse("0,s,notanumber\n").is_err());
}

#[test]
fn the_first_bad_line_is_reported() {
    assert_eq!(parse("1,s,2\nbanana,s,10\n,,\n").unwrap_err(), "bad time: banana");
    assert_eq!(parse("0,s,x y\n").unwrap_err(), "bad size: x y");
    assert_eq!(parse("12\n").unwrap_err(), "missing direction");
    assert_eq!(parse("-1,s\n").unwrap_err(), "bad time: -1");
    assert_eq!(parse("0,s,\n").unwrap_err(), "bad size: ");
    assert_eq!(
        parse("340282366920938463463374607431768211456,s\n").unwrap_err(),
        "bad time: 340282366920938463463374607431768211456"
    );
}

#[test]
fn whitespace_and_blank_lines_do_not_matter() {
    let p = parse("\r\n  \t\n +7 , s , 010 \r\n\n340282366920938463463374607431768211455,x,1,2,3")
        .unwrap();
    assert_eq!(
        p,
        vec![
            Packet { nanos: 7, sent: true, bytes: 10 },
            Packet { nanos: u128::MAX, sent: false, bytes: 1 },
        ]
    );
    assert_eq!(parse("").unwrap(), vec![]);
}

#[test]
fn a_trace_reads_back() {
    let packets = vec![
        Packet { nanos: 0, sent: true, bytes: 1224 },
        Packet { nanos: 42, sent: false, bytes: 0 },
        Packet { nanos: u128::MAX, sent: true, bytes: usize::MAX },
    ];
    let csv = to_csv(&packets);
    assert!(csv.starts_with("0,s,1224\n42,r,0\n"));
    assert_eq!(parse(&csv).unwrap(), packets);
}

#[test]
fn an_empty_trace_sums_up_to_nothing() {
    let s = summarize(&[]);
    assert_eq!((s.packets, s.sent, s.received, s.bytes), (0, 0, 0, 0));
    assert_eq!((s.duration_ms, s.unique_sizes, s.bursts), (0, 0, 0));
    assert_eq!((s.occupied_bins, s.total_bins), (0, 0));
    assert!(s.size_counts.is_empty());
}

#[test]
fn a_trace_sums_up() {
    let ms: u128 = 1_000_000;
    let packets = [
        Packet { nanos: 1000 * ms, sent: true, bytes: 100 },
        Packet { nanos: 1050 * ms, sent: false, bytes: 200 },
        Packet { nanos: 1299 * ms, sent: true, bytes: 100 },
        // One gap that is just too short, one that is just long enough.
        Packet { nanos: 1598 * ms + 999_999, sent: false, bytes: 300 },
        Packet { nanos: 1899 * ms, sent: false, bytes: 100 },
    ];
    let s = summarize(&packets);
    assert_eq!((s.packets, s.sent, s.received, s.bytes), (5, 2, 3, 800));
    assert_eq!(s.duration_ms, 899);
    assert_eq!(s.unique_sizes, 3);
    assert_eq!(s.size_counts[&100], 3);
    assert_eq!(s.size_counts[&200], 1);
    assert_eq!(s.size_counts[&300], 1);
    // Bins 0, 2, 5 and 8 of nine.
    assert_eq!((s.occupied_bins, s.total_bins), (4, 9));
    assert_eq!(s.bursts, 2);
    // A trace shorter than one bin fills the one it has.
    let short = summarize(&packets[..2]);
    assert_eq!((short.occupied_bins, short.total_bins, short.bursts), (1, 1, 1));
    let single = summarize(&packets[..1]);
    assert_eq!((single.occupied_bins, single.total_bins, single.bursts), (1, 1, 1));
}
