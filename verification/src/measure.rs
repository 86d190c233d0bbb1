//! Trace analysis.
//!
//! It measures properties of a trace that an observer of the link can compute: packet sizes,
//! counts, timing occupancy, burst structure. It does **not** measure attacker accuracy. The size
//! and occupancy figures are necessary conditions for a defense to work, not sufficient ones: a
//! trace can have perfect size uniformity and still be fingerprintable by timing alone.

use std::collections::HashMap;

use vstd::prelude::*;

use crate::text;

verus! {

#[derive(Clone, Copy, Debug, PartialEq, Eq, Structural)]
pub struct Packet {
    pub nanos: u128,
    pub sent: bool,
    pub bytes: usize,
}

/// Whether there is nothing but whitespace in a line.
pub open spec fn blank(line: Seq<char>) -> bool {
    text::trimmed(line).len() == 0
}

/// What stands for the size in a line: the third column, and 0 where there are only two.
pub open spec fn size_column(columns: Seq<Seq<char>>) -> Seq<char> {
    if columns.len() >= 3 {
        text::trimmed(columns[2])
    } else {
        "0"@
    }
}

/// The packet that a line stands for, or what is wrong with the line.
pub open spec fn line_packet(line: Seq<char>) -> Result<Packet, Seq<char>> {
    let columns = text::pieces(line, ',');
    let time = text::trimmed(columns[0]);
    let size = size_column(columns);
    if columns.len() < 2 {
        Err("missing direction"@)
    } else {
        match text::number(time) {
            None => Err("bad time: "@ + time),
            Some(nanos) => if nanos > u128::MAX {
                Err("bad time: "@ + time)
            } else {
                match text::number(size) {
                    None => Err("bad size: "@ + size),
                    Some(bytes) => if bytes > usize::MAX {
                        Err("bad size: "@ + size)
                    } else {
                        Ok(
                            Packet {
                                nanos: nanos as u128,
                                sent: text::trimmed(columns[1]) == "s"@,
                                bytes: bytes as usize,
                            },
                        )
                    },
                }
            },
        }
    }
}

/// The packets that the lines stand for, blank ones left out, or what is wrong with the first bad
/// line.
pub open spec fn line_packets(lines: Seq<Seq<char>>) -> Result<Seq<Packet>, Seq<char>>
    decreases lines.len(),
{
    if lines.len() == 0 {
        Ok(Seq::empty())
    } else {
        match line_packets(lines.drop_last()) {
            Err(e) => Err(e),
            Ok(before) => if blank(lines.last()) {
                Ok(before)
            } else {
                match line_packet(lines.last()) {
                    Err(e) => Err(e),
                    Ok(p) => Ok(before.push(p)),
                }
            },
        }
    }
}

fn complaint(what: &str, about: &[char]) -> (s: String)
    ensures
        s@ == what@ + about@,
{
    let mut s = String::new();
    s.append(what);
    let rest = text::string_of(about);
    s.append(rest.as_str());
    assert(s@ =~= what@ + about@);
    s
}

fn parse_line(line: &[char]) -> (r: Result<Packet, String>)
    ensures
        match line_packet(line@) {
            Ok(p) => r == Ok::<Packet, String>(p),
            Err(e) => r is Err && r->Err_0@ == e,
        },
{
    let columns = text::split(line, ',');
    let time = text::trim(&columns[0]);
    if columns.len() < 2 {
        return Err(complaint("missing direction", &[]));
    }
    let direction = text::trim(&columns[1]);
    let zero = ['0'];
    let size: &[char] = if columns.len() >= 3 {
        text::trim(&columns[2])
    } else {
        proof {
            reveal_strlit("0");
            assert(zero@ =~= "0"@);
        }
        &zero
    };
    assert(size@ == size_column(text::pieces(line@, ',')));
    let nanos: u128 = match text::read_number(time, u128::MAX) {
        Some(n) => n,
        None => return Err(complaint("bad time: ", time)),
    };
    let sent = text::spells(direction, "s");
    let bytes: usize = match text::read_number(size, usize::MAX as u128) {
        Some(n) => n as usize,
        None => return Err(complaint("bad size: ", size)),
    };
    Ok(Packet { nanos, sent, bytes })
}

/// Reads a trace: one packet per line, `nanoseconds,direction` with an optional third column for
/// the bytes. Blank lines are skipped; a malformed line is an error, not a silent zero.
pub fn parse(csv: &str) -> (r: Result<Vec<Packet>, String>)
    ensures
        match line_packets(text::pieces(csv@, '\n')) {
            Ok(packets) => r is Ok && r->Ok_0@ == packets,
            Err(e) => r is Err && r->Err_0@ == e,
        },
{
    let all = text::chars_of(csv);
    let lines = text::split(&all, '\n');
    let ghost texts = text::pieces(csv@, '\n');
    let mut out: Vec<Packet> = Vec::new();
    let mut i: usize = 0;
    assert(texts.take(0) =~= Seq::empty());
    while i < lines.len()
        invariant
            i <= lines@.len() == texts.len(),
            texts == text::pieces(csv@, '\n'),
            forall|k: int| 0 <= k < lines@.len() ==> (#[trigger] lines@[k])@ == texts[k],
            line_packets(texts.take(i as int)) == Ok::<Seq<Packet>, Seq<char>>(out@),
        decreases lines@.len() - i,
    {
        proof {
            assert(texts.take(i + 1).drop_last() =~= texts.take(i as int));
            assert(texts.take(i + 1).last() == texts[i as int]);
        }
        let line = &lines[i];
        if text::trim(line).len() != 0 {
            match parse_line(line) {
                Ok(p) => out.push(p),
                Err(e) => {
                    proof {
                        lemma_bad_line_stays(texts, i + 1, e@);
                    }
                    return Err(e);
                },
            }
        }
        i += 1;
    }
    assert(texts.take(i as int) =~= texts);
    Ok(out)
}

proof fn lemma_bad_line_stays(lines: Seq<Seq<char>>, n: int, e: Seq<char>)
    requires
        0 <= n <= lines.len(),
        line_packets(lines.take(n)) == Err::<Seq<Packet>, Seq<char>>(e),
    ensures
        line_packets(lines) == Err::<Seq<Packet>, Seq<char>>(e),
    decreases lines.len() - n,
{
    if n < lines.len() {
        assert(lines.take(n + 1).drop_last() =~= lines.take(n));
        lemma_bad_line_stays(lines, n + 1, e);
    } else {
        assert(lines.take(n) =~= lines);
    }
}

/// Width of the bins in which activity is looked for.
pub const BIN_MS: u128 = 100;

/// A gap of at least this length separates two bursts.
pub const BURST_GAP_MS: u128 = 300;

/// What an observer can count in a trace.
#[derive(Debug, Clone)]
pub struct Summary {
    pub packets: usize,
    pub sent: usize,
    pub received: usize,
    pub bytes: u64,
    pub duration_ms: u128,
    pub unique_sizes: usize,
    /// How often each packet size occurs. The entropy of this distribution is the number that
    /// constant packet size exists to drive to zero: a trace with one size carries no information
    /// in its sizes at all.
    pub size_counts: HashMap<usize, usize>,
    /// How many bins of 100 ms contain at least one packet, and how many bins there are.
    ///
    /// Idle gaps are a strong fingerprinting signal: a link that goes quiet when the user stops
    /// reading tells an observer when the page finished loading. Cover traffic pushes the ratio
    /// of the two toward 1.
    pub occupied_bins: usize,
    pub total_bins: u128,
    /// Runs of activity separated by gaps of 300 ms or more.
    pub bursts: usize,
}

/// Whether the packets are in the order of time.
pub open spec fn in_order(packets: Seq<Packet>) -> bool {
    forall|i: int, j: int|
        0 <= i <= j < packets.len() ==> (#[trigger] packets[i]).nanos <= (
        #[trigger] packets[j]).nanos
}

/// How many packets satisfy `which`.
pub open spec fn count(packets: Seq<Packet>, which: spec_fn(Packet) -> bool) -> nat
    decreases packets.len(),
{
    if packets.len() == 0 {
        0
    } else {
        count(packets.drop_last(), which) + if which(packets.last()) {
            1nat
        } else {
            0
        }
    }
}

pub open spec fn sent_ones() -> spec_fn(Packet) -> bool {
    |p: Packet| p.sent
}

pub open spec fn received_ones() -> spec_fn(Packet) -> bool {
    |p: Packet| !p.sent
}

pub open spec fn of_size(size: usize) -> spec_fn(Packet) -> bool {
    |p: Packet| p.bytes == size
}

pub open spec fn total_bytes(packets: Seq<Packet>) -> nat
    decreases packets.len(),
{
    if packets.len() == 0 {
        0
    } else {
        total_bytes(packets.drop_last()) + packets.last().bytes as nat
    }
}

/// Whole milliseconds from the first packet to the packet at `i`.
pub open spec fn since_first_ms(packets: Seq<Packet>, i: int) -> int {
    (packets[i].nanos - packets[0].nanos) / 1_000_000
}

/// The bin that the packet at `i` falls in.
pub open spec fn bin(packets: Seq<Packet>, i: int) -> int {
    since_first_ms(packets, i) / BIN_MS as int
}

/// The bins that the first `n` packets fall in.
pub open spec fn bins_of(packets: Seq<Packet>, n: int) -> Set<int> {
    Seq::new(n as nat, |i: int| bin(packets, i)).to_set()
}

/// How many of the first `n` packets come at least a burst gap after the one before them.
pub open spec fn gaps(packets: Seq<Packet>, n: int) -> nat
    decreases n,
{
    if n <= 1 {
        0
    } else {
        gaps(packets, n - 1) + if (packets[n - 1].nanos - packets[n - 2].nanos) / 1_000_000
            >= BURST_GAP_MS {
            1nat
        } else {
            0
        }
    }
}

/// Whether `counts` says of each size how often it occurs.
pub open spec fn counts_sizes(counts: Map<usize, usize>, packets: Seq<Packet>) -> bool {
    forall|size: usize|
        {
            let n = count(packets, of_size(size));
            &&& #[trigger] counts.contains_key(size) <==> n > 0
            &&& n > 0 ==> counts[size] == n
        }
}

impl Summary {
    /// Whether this is the summary of `packets`.
    pub open spec fn sums_up(self, packets: Seq<Packet>) -> bool {
        &&& self.packets == packets.len()
        &&& self.sent == count(packets, sent_ones())
        &&& self.received == count(packets, received_ones())
        &&& self.bytes == total_bytes(packets)
        &&& counts_sizes(self.size_counts@, packets)
        &&& self.unique_sizes == self.size_counts@.dom().len()
        &&& if packets.len() == 0 {
            &&& self.duration_ms == 0
            &&& self.occupied_bins == 0
            &&& self.total_bins == 0
            &&& self.bursts == 0
        } else {
            let last = packets.len() - 1;
            &&& self.duration_ms == since_first_ms(packets, last)
            &&& self.occupied_bins == bins_of(packets, packets.len() as int).len()
            &&& self.total_bins == 1 + bin(packets, last)
            &&& self.bursts == 1 + gaps(packets, packets.len() as int)
        }
    }
}

proof fn lemma_count_bound(packets: Seq<Packet>, which: spec_fn(Packet) -> bool)
    ensures
        count(packets, which) <= packets.len(),
    decreases packets.len(),
{
    if packets.len() > 0 {
        lemma_count_bound(packets.drop_last(), which);
    }
}

proof fn lemma_total_bytes_monotone(packets: Seq<Packet>, n: int)
    requires
        0 <= n <= packets.len(),
    ensures
        total_bytes(packets.take(n)) <= total_bytes(packets),
    decreases packets.len() - n,
{
    if n < packets.len() {
        lemma_total_bytes_monotone(packets, n + 1);
        assert(packets.take(n + 1).drop_last() =~= packets.take(n));
    } else {
        assert(packets.take(n) =~= packets);
    }
}

/// The bin of the packet at `n` is new exactly where it is not the bin of the packet before.
proof fn lemma_next_bin(packets: Seq<Packet>, n: int)
    requires
        in_order(packets),
        0 < n < packets.len(),
    ensures
        bins_of(packets, n).finite(),
        bins_of(packets, n + 1) == bins_of(packets, n).insert(bin(packets, n)),
        bins_of(packets, n).contains(bin(packets, n)) <==> bin(packets, n) == bin(packets, n - 1),
{
    let s = Seq::new(n as nat, |i: int| bin(packets, i));
    let t = Seq::new((n + 1) as nat, |i: int| bin(packets, i));
    vstd::seq_lib::seq_to_set_is_finite(s);
    assert(t =~= s.push(bin(packets, n)));
    s.lemma_push_to_set_commute(bin(packets, n));
    if bin(packets, n) == bin(packets, n - 1) {
        assert(s[n - 1] == bin(packets, n));
        assert(s.contains(bin(packets, n)));
    }
    if s.contains(bin(packets, n)) {
        let i = choose|i: int| 0 <= i < n && s[i] == bin(packets, n);
        lemma_bins_in_order(packets, i, n - 1);
        lemma_bins_in_order(packets, n - 1, n);
    }
}

proof fn lemma_bins_in_order(packets: Seq<Packet>, i: int, j: int)
    requires
        in_order(packets),
        0 <= i <= j < packets.len(),
    ensures
        0 <= bin(packets, i) <= bin(packets, j),
{
    assert(packets[0].nanos <= packets[i].nanos);
    assert(packets[i].nanos <= packets[j].nanos);
}

/// What an observer of the link can count in a trace whose lines are in the order of time.
pub fn summarize(packets: &[Packet]) -> (s: Summary)
    requires
        in_order(packets@),
        total_bytes(packets@) <= u64::MAX,
    ensures
        s.sums_up(packets@),
{
    broadcast use vstd::std_specs::hash::group_hash_axioms;

    let ghost all = packets@;
    let mut size_counts: HashMap<usize, usize> = HashMap::new();
    if packets.len() == 0 {
        let unique_sizes: usize = size_counts.len();
        return Summary {
            packets: 0,
            sent: 0,
            received: 0,
            bytes: 0,
            duration_ms: 0,
            unique_sizes,
            size_counts,
            occupied_bins: 0,
            total_bins: 0,
            bursts: 0,
        };
    }
    let first: u128 = packets[0].nanos;
    let mut sent: usize = 0;
    let mut received: usize = 0;
    let mut bytes: u64 = 0;
    let mut occupied_bins: usize = 0;
    let mut bursts: usize = 1;
    let mut last_bin: u128 = 0;
    let mut i: usize = 0;
    assert(all.take(0) =~= Seq::empty());
    assert(bins_of(all, 0) =~= Set::empty());
    while i < packets.len()
        invariant
            all == packets@,
            i <= all.len(),
            all.len() > 0,
            first == all[0].nanos,
            in_order(all),
            total_bytes(all) <= u64::MAX,
            sent == count(all.take(i as int), sent_ones()),
            received == count(all.take(i as int), received_ones()),
            sent + received == i,
            bytes == total_bytes(all.take(i as int)),
            counts_sizes(size_counts@, all.take(i as int)),
            occupied_bins == bins_of(all, i as int).len(),
            occupied_bins <= i,
            i > 0 ==> last_bin == bin(all, i - 1),
            1 <= bursts,
            bursts == 1 + gaps(all, i as int),
            i == 0 ==> bursts == 1,
            i > 0 ==> bursts <= i,
        decreases all.len() - i,
    {
        broadcast use vstd::std_specs::hash::group_hash_axioms;

        let p = packets[i];
        let ghost before = all.take(i as int);
        let ghost after = all.take(i + 1);
        proof {
            assert(after.drop_last() =~= before);
            assert(after.last() == p);
            lemma_total_bytes_monotone(all, i + 1);
            assert(all[0].nanos <= all[i as int].nanos);
            if i > 0 {
                assert(all[i - 1].nanos <= all[i as int].nanos);
            }
        }
        let ghost counts0 = size_counts@;
        let seen: usize = match size_counts.get(&p.bytes) {
            Some(n) => *n,
            None => 0,
        };
        proof {
            lemma_count_bound(before, of_size(p.bytes));
            assert(counts0.contains_key(p.bytes) <==> count(before, of_size(p.bytes)) > 0);
            assert(seen == count(before, of_size(p.bytes)));
        }
        size_counts.insert(p.bytes, seen + 1);
        assert forall|size: usize|
            {
                let n = count(after, of_size(size));
                &&& #[trigger] size_counts@.contains_key(size) <==> n > 0
                &&& n > 0 ==> size_counts@[size] == n
            } by {
            assert(counts0.contains_key(size) <==> count(before, of_size(size)) > 0);
        }
        if p.sent {
            sent += 1;
        } else {
            received += 1;
        }
        bytes = bytes + p.bytes as u64;
        let this_bin: u128 = (p.nanos - first) / 1_000_000 / BIN_MS;
        assert(this_bin == bin(all, i as int));
        proof {
            if i > 0 {
                lemma_next_bin(all, i as int);
            } else {
                let none = Seq::<int>::empty();
                assert(Seq::new(1, |k: int| bin(all, k)) =~= none.push(bin(all, 0)));
                none.lemma_push_to_set_commute(bin(all, 0));
                assert(none.to_set() =~= Set::<int>::empty());
            }
        }
        if i == 0 || this_bin != last_bin {
            occupied_bins += 1;
        }
        last_bin = this_bin;
        if i > 0 && (p.nanos - packets[i - 1].nanos) / 1_000_000 >= BURST_GAP_MS {
            bursts += 1;
        }
        i += 1;
    }
    assert(all.take(i as int) =~= all);
    let duration_ms: u128 = (packets[packets.len() - 1].nanos - first) / 1_000_000;
    let unique_sizes: usize = size_counts.len();
    Summary {
        packets: packets.len(),
        sent,
        received,
        bytes,
        duration_ms,
        unique_sizes,
        size_counts,
        occupied_bins,
        total_bins: last_bin + 1,
        bursts,
    }
}

/// One line of a trace without its end: time in nanoseconds, `s` for sent or `r` for received,
/// bytes.
pub open spec fn csv_columns(p: Packet) -> Seq<char> {
    text::decimal(p.nanos as nat) + (if p.sent {
        ",s,"@
    } else {
        ",r,"@
    }) + text::decimal(p.bytes as nat)
}

/// A trace, one line per packet.
pub open spec fn csv(packets: Seq<Packet>) -> Seq<char>
    decreases packets.len(),
{
    if packets.len() == 0 {
        Seq::empty()
    } else {
        csv(packets.drop_last()) + csv_columns(packets.last()) + "\n"@
    }
}

/// Writes a trace. The first two columns are the format that the Maybenot simulator consumes.
pub fn to_csv(packets: &[Packet]) -> (s: String)
    ensures
        s@ == csv(packets@),
{
    let mut s = String::new();
    let mut i: usize = 0;
    assert(packets@.take(0) =~= Seq::empty());
    while i < packets.len()
        invariant
            i <= packets@.len(),
            s@ == csv(packets@.take(i as int)),
        decreases packets@.len() - i,
    {
        let p = packets[i];
        text::push_decimal(&mut s, p.nanos);
        s.append(
            if p.sent {
                ",s,"
            } else {
                ",r,"
            },
        );
        text::push_decimal(&mut s, p.bytes as u128);
        s.append("\n");
        assert(packets@.take(i + 1).drop_last() =~= packets@.take(i as int));
        assert(s@ =~= csv(packets@.take(i as int)) + csv_columns(p) + "\n"@);
        i += 1;
    }
    assert(packets@.take(i as int) =~= packets@);
    s
}

/// A trace that was written reads back as the packets that went in.
pub proof fn law_trace_reads_back(packets: Seq<Packet>)
    ensures
        line_packets(text::pieces(csv(packets), '\n')) == Ok::<Seq<Packet>, Seq<char>>(packets),
{
    let lines = packets.map_values(|p: Packet| csv_columns(p));
    lemma_csv_lines(packets);
    lemma_lines_read_back(packets);
    assert(lines.push(Seq::empty()).drop_last() =~= lines);
}

proof fn lemma_csv_lines(packets: Seq<Packet>)
    ensures
        text::pieces(csv(packets), '\n') == packets.map_values(
            |p: Packet| csv_columns(p),
        ).push(Seq::empty()),
    decreases packets.len(),
{
    let lines = packets.map_values(|p: Packet| csv_columns(p));
    if packets.len() == 0 {
        assert(text::pieces(csv(packets), '\n') =~= lines.push(Seq::empty()));
    } else {
        let before = packets.drop_last();
        let p = packets.last();
        let lines0 = before.map_values(|p: Packet| csv_columns(p));
        lemma_csv_lines(before);
        let a = csv(before);
        let b = csv_columns(p);
        lemma_columns_hold_no_newline(p);
        text::lemma_pieces_extend(a, b, '\n');
        text::lemma_pieces_separate(a + b, '\n');
        reveal_strlit("\n");
        assert(csv(packets) =~= (a + b).push('\n'));
        assert(lines0.push(Seq::empty()).drop_last() =~= lines0);
        assert(Seq::<char>::empty() + b =~= b);
        assert(lines0.push(b) =~= lines);
    }
}

pub proof fn lemma_digits_hold_no(n: nat, c: char)
    requires
        !text::is_digit(c),
    ensures
        forall|i: int| 0 <= i < text::decimal(n).len() ==> #[trigger] text::decimal(n)[i] != c,
{
    text::lemma_decimal(n);
    assert forall|i: int| 0 <= i < text::decimal(n).len() implies #[trigger] text::decimal(n)[i]
        != c by {
        assert(text::is_digit(text::decimal(n)[i]));
    }
}

proof fn lemma_columns_hold_no_newline(p: Packet)
    ensures
        forall|i: int| 0 <= i < csv_columns(p).len() ==> #[trigger] csv_columns(p)[i] != '\n',
{
    reveal_strlit(",s,");
    reveal_strlit(",r,");
    lemma_digits_hold_no(p.nanos as nat, '\n');
    lemma_digits_hold_no(p.bytes as nat, '\n');
}

proof fn lemma_columns(p: Packet)
    ensures
        line_packet(csv_columns(p)) == Ok::<Packet, Seq<char>>(p),
        !blank(csv_columns(p)),
{
    let time = text::decimal(p.nanos as nat);
    let size = text::decimal(p.bytes as nat);
    let dir = if p.sent {
        seq!['s']
    } else {
        seq!['r']
    };
    reveal_strlit(",s,");
    reveal_strlit(",r,");
    reveal_strlit("s");
    lemma_digits_hold_no(p.nanos as nat, ',');
    lemma_digits_hold_no(p.bytes as nat, ',');
    text::law_numbers_read_back(p.nanos as nat);
    text::law_numbers_read_back(p.bytes as nat);
    text::lemma_decimal(p.nanos as nat);
    text::lemma_decimal(p.bytes as nat);
    let e = Seq::<char>::empty();
    // The columns, one after the other.
    text::lemma_pieces_extend(e, time, ',');
    assert(e + time =~= time);
    text::lemma_pieces_separate(time, ',');
    text::lemma_pieces_extend(time.push(','), dir, ',');
    text::lemma_pieces_separate(time.push(',') + dir, ',');
    text::lemma_pieces_extend((time.push(',') + dir).push(','), size, ',');
    let line = (time.push(',') + dir).push(',') + size;
    assert(line =~= csv_columns(p));
    assert(e + dir =~= dir);
    assert(e + size =~= size);
    assert(text::pieces(line, ',') =~= seq![time, dir, size]);
    assert(text::trimmed(dir) == dir);
    assert(dir =~= "s"@ <==> p.sent) by {
        assert("s"@ =~= seq!['s']);
        if !p.sent {
            assert(dir[0] == 'r');
        }
    }
    // A line that starts with a digit is not blank.
    assert(line[0] == time[0]);
    assert(text::is_digit(time[0]));
    assert(line.last() == size.last());
    assert(text::is_digit(size.last()));
    assert(text::trimmed(line) == line);
}

proof fn lemma_lines_read_back(packets: Seq<Packet>)
    ensures
        line_packets(packets.map_values(|p: Packet| csv_columns(p))) == Ok::<
            Seq<Packet>,
            Seq<char>,
        >(packets),
    decreases packets.len(),
{
    let lines = packets.map_values(|p: Packet| csv_columns(p));
    if packets.len() == 0 {
        assert(packets =~= Seq::empty());
    } else {
        let before = packets.drop_last();
        lemma_lines_read_back(before);
        lemma_columns(packets.last());
        assert(lines.drop_last() =~= before.map_values(|p: Packet| csv_columns(p)));
        assert(before.push(packets.last()) =~= packets);
    }
}

/// A trace in which every packet has the same size shows exactly one size, and that size as often
/// as there are packets: its sizes carry no information.
pub proof fn law_one_size_shows_once(s: Summary, packets: Seq<Packet>, size: usize)
    requires
        s.sums_up(packets),
        packets.len() > 0,
        forall|i: int| 0 <= i < packets.len() ==> (#[trigger] packets[i]).bytes == size,
    ensures
        s.unique_sizes == 1,
        s.size_counts@.contains_key(size),
        s.size_counts@[size] == packets.len(),
{
    lemma_count_all(packets, of_size(size));
    assert forall|k: usize| #[trigger] s.size_counts@.contains_key(k) implies k == size by {
        if k != size {
            lemma_count_none(packets, of_size(k));
        }
    }
    assert(s.size_counts@.contains_key(size));
    assert(s.size_counts@.dom() =~= Set::<usize>::empty().insert(size));
}

proof fn lemma_count_all(packets: Seq<Packet>, which: spec_fn(Packet) -> bool)
    requires
        forall|i: int| 0 <= i < packets.len() ==> which(#[trigger] packets[i]),
    ensures
        count(packets, which) == packets.len(),
    decreases packets.len(),
{
    if packets.len() > 0 {
        assert(which(packets[packets.len() - 1]));
        assert forall|i: int| 0 <= i < packets.drop_last().len() implies which(
            #[trigger] packets.drop_last()[i],
        ) by {
            assert(which(packets[i]));
        }
        lemma_count_all(packets.drop_last(), which);
    }
}

proof fn lemma_count_none(packets: Seq<Packet>, which: spec_fn(Packet) -> bool)
    requires
        forall|i: int| 0 <= i < packets.len() ==> !which(#[trigger] packets[i]),
    ensures
        count(packets, which) == 0,
    decreases packets.len(),
{
    if packets.len() > 0 {
        assert(!which(packets[packets.len() - 1]));
        assert forall|i: int| 0 <= i < packets.drop_last().len() implies !which(
            #[trigger] packets.drop_last()[i],
        ) by {
            assert(!which(packets[i]));
        }
        lemma_count_none(packets.drop_last(), which);
    }
}

/// Every packet was either sent or received, there is at least one burst where there is a packet,
/// and no more bins are occupied than there are.
pub proof fn law_summary_adds_up(s: Summary, packets: Seq<Packet>)
    requires
        in_order(packets),
        s.sums_up(packets),
    ensures
        s.sent + s.received == s.packets,
        packets.len() > 0 ==> 1 <= s.bursts <= s.packets,
        packets.len() > 0 ==> 1 <= s.occupied_bins <= s.total_bins,
{
    lemma_sent_and_received(packets);
    if packets.len() > 0 {
        let n = packets.len() as int;
        lemma_gaps_bound(packets, n);
        let bins = Seq::new(n as nat, |i: int| bin(packets, i));
        vstd::seq_lib::seq_to_set_is_finite(bins);
        assert(bins[0] == bin(packets, 0));
        assert(bins_of(packets, n).contains(bin(packets, 0)));
        let top = bin(packets, n - 1) + 1;
        let range = vstd::set_lib::set_int_range(0, top);
        vstd::set_lib::lemma_int_range(0, top);
        lemma_bins_in_order(packets, 0, n - 1);
        assert forall|b: int| #[trigger] bins_of(packets, n).contains(b) implies range.contains(
            b,
        ) by {
            let i = choose|i: int| 0 <= i < n && bins[i] == b;
            lemma_bins_in_order(packets, i, n - 1);
        }
        vstd::set_lib::lemma_len_subset(bins_of(packets, n), range);
        if bins_of(packets, n).len() == 0 {
            assert(bins_of(packets, n) =~= Set::empty());
        }
    }
}

proof fn lemma_sent_and_received(packets: Seq<Packet>)
    ensures
        count(packets, sent_ones()) + count(packets, received_ones()) == packets.len(),
    decreases packets.len(),
{
    if packets.len() > 0 {
        lemma_sent_and_received(packets.drop_last());
    }
}

proof fn lemma_gaps_bound(packets: Seq<Packet>, n: int)
    requires
        0 < n,
    ensures
        gaps(packets, n) < n,
    decreases n,
{
    if n > 1 {
        lemma_gaps_bound(packets, n - 1);
    }
}

/// Whether two traces have the same times, one packet after the other.
pub open spec fn same_times(a: Seq<Packet>, b: Seq<Packet>) -> bool {
    &&& a.len() == b.len()
    &&& forall|i: int| 0 <= i < a.len() ==> (#[trigger] a[i]).nanos == b[i].nanos
}

/// The number of bursts, the duration and the bins depend on the times alone: two traces with the
/// same times, whatever their directions and sizes, have the same.
pub proof fn law_timing_figures_depend_on_times_alone(
    a: Seq<Packet>,
    b: Seq<Packet>,
    s: Summary,
    t: Summary,
)
    requires
        same_times(a, b),
        s.sums_up(a),
        t.sums_up(b),
    ensures
        s.bursts == t.bursts,
        s.duration_ms == t.duration_ms,
        s.occupied_bins == t.occupied_bins,
        s.total_bins == t.total_bins,
        s.packets == t.packets,
{
    let n = a.len() as int;
    if n > 0 {
        lemma_same_gaps(a, b, n);
        assert(a[0].nanos == b[0].nanos);
        assert(a[n - 1].nanos == b[n - 1].nanos);
        assert(Seq::new(n as nat, |i: int| bin(a, i)) =~= Seq::new(n as nat, |i: int| bin(b, i)));
    }
}

proof fn lemma_same_gaps(a: Seq<Packet>, b: Seq<Packet>, n: int)
    requires
        same_times(a, b),
        n <= a.len(),
    ensures
        gaps(a, n) == gaps(b, n),
    decreases n,
{
    if n > 1 {
        lemma_same_gaps(a, b, n - 1);
        assert(a[n - 1].nanos == b[n - 1].nanos);
        assert(a[n - 2].nanos == b[n - 2].nanos);
    }
}

/// Whether some packet of the trace falls in the same tenth of a second, counted from the first
/// packet on, as the time `nanos` does.
pub open spec fn shares_a_bin(packets: Seq<Packet>, nanos: u128) -> bool {
    exists|i: int|
        0 <= i < packets.len() && ((#[trigger] packets[i]).nanos - packets[0].nanos) / 100_000_000
            == (nanos - packets[0].nanos) / 100_000_000
}

/// What one more packet at the end of a trace adds: one packet, in its direction, with its bytes;
/// one burst exactly where it comes 300 ms or more after the packet before it; one occupied bin
/// exactly where no other packet falls in the same tenth of a second.
pub proof fn law_one_more_packet(packets: Seq<Packet>, p: Packet, s: Summary, t: Summary)
    requires
        packets.len() > 0,
        in_order(packets.push(p)),
        s.sums_up(packets),
        t.sums_up(packets.push(p)),
    ensures
        t.packets == s.packets + 1,
        t.sent == s.sent + if p.sent {
            1int
        } else {
            0
        },
        t.received == s.received + if p.sent {
            0int
        } else {
            1
        },
        t.bytes == s.bytes + p.bytes,
        t.bursts == s.bursts + if p.nanos - packets.last().nanos >= 300_000_000 {
            1int
        } else {
            0
        },
        t.occupied_bins == s.occupied_bins + if shares_a_bin(packets, p.nanos) {
            0int
        } else {
            1
        },
        t.duration_ms == (p.nanos - packets[0].nanos) / 1_000_000,
        t.total_bins == (p.nanos - packets[0].nanos) / 100_000_000 + 1,
        t.size_counts@.contains_key(p.bytes),
        t.size_counts@[p.bytes] == 1 + if s.size_counts@.contains_key(p.bytes) {
            s.size_counts@[p.bytes] as int
        } else {
            0
        },
        forall|size: usize|
            size != p.bytes ==> (#[trigger] t.size_counts@.contains_key(size)
                <==> s.size_counts@.contains_key(size)) && (s.size_counts@.contains_key(size)
                ==> t.size_counts@[size] == s.size_counts@[size]),
        t.unique_sizes == s.unique_sizes + if s.size_counts@.contains_key(p.bytes) {
            0int
        } else {
            1
        },
{
    let all = packets.push(p);
    let n = packets.len() as int;
    assert(all.drop_last() =~= packets);
    assert(all.last() == p);
    assert forall|i: int| 0 <= i < n implies #[trigger] all[i] == packets[i] by {}
    lemma_gaps_prefix(packets, p, n);
    assert(all[n - 1].nanos <= all[n].nanos);
    assert(packets.last() == all[n - 1]);
    // Bins.
    lemma_next_bin(all, n);
    assert(Seq::new(n as nat, |i: int| bin(all, i)) =~= Seq::new(
        n as nat,
        |i: int| bin(packets, i),
    ));
    assert(bins_of(all, n) == bins_of(packets, n));
    let bins = Seq::new(n as nat, |i: int| bin(all, i));
    assert(bin(all, n) == (p.nanos - packets[0].nanos) / 100_000_000) by {
        lemma_bin_of_nanos(p.nanos - packets[0].nanos);
    }
    assert forall|i: int| 0 <= i < n implies #[trigger] bin(packets, i) == (packets[i].nanos
        - packets[0].nanos) / 100_000_000 by {
        lemma_bin_of_nanos(packets[i].nanos - packets[0].nanos);
    }
    if shares_a_bin(packets, p.nanos) {
        let i = choose|i: int|
            0 <= i < packets.len() && ((#[trigger] packets[i]).nanos - packets[0].nanos)
                / 100_000_000 == (p.nanos - packets[0].nanos) / 100_000_000;
        assert(bin(packets, i) == bin(all, n));
        assert(bins[i] == bin(all, n));
        assert(bins.contains(bin(all, n)));
    }
    if bins_of(all, n).contains(bin(all, n)) {
        let i = choose|i: int| 0 <= i < n && bins[i] == bin(all, n);
        assert(bin(packets, i) == bin(all, n));
        assert(shares_a_bin(packets, p.nanos));
    }
    // Sizes.
    let (a, b) = (s.size_counts@, t.size_counts@);
    assert forall|size: usize|
        #[trigger] b.contains_key(size) <==> a.contains_key(size) || size == p.bytes by {
        assert(count(all, of_size(size)) == count(packets, of_size(size)) + if size == p.bytes {
            1nat
        } else {
            0
        });
        assert(a.contains_key(size) <==> count(packets, of_size(size)) > 0);
    }
    assert(a.contains_key(p.bytes) <==> count(packets, of_size(p.bytes)) > 0);
    assert(b.contains_key(p.bytes) <==> count(all, of_size(p.bytes)) > 0);
    assert(b[p.bytes] == count(all, of_size(p.bytes)));
    assert(b.dom() =~= a.dom().insert(p.bytes));
    assert forall|size: usize| size != p.bytes implies (#[trigger] b.contains_key(size)
        <==> a.contains_key(size)) && (a.contains_key(size) ==> b[size] == a[size]) by {
        assert(a.contains_key(size) <==> count(packets, of_size(size)) > 0);
        assert(count(all, of_size(size)) == count(packets, of_size(size)));
    }
    if n > 0 {
        assert(a.dom().finite()) by {
            lemma_sizes_finite(packets, a);
        }
    }
}

proof fn lemma_sizes_finite(packets: Seq<Packet>, counts: Map<usize, usize>)
    requires
        counts_sizes(counts, packets),
    ensures
        counts.dom().finite(),
{
    let sizes = packets.map_values(|p: Packet| p.bytes);
    vstd::seq_lib::seq_to_set_is_finite(sizes);
    assert forall|size: usize| #[trigger] counts.dom().contains(size) implies sizes.to_set().contains(
        size,
    ) by {
        assert(counts.contains_key(size));
        if forall|i: int| 0 <= i < packets.len() ==> !of_size(size)(#[trigger] packets[i]) {
            lemma_count_none(packets, of_size(size));
        } else {
            let i = choose|i: int| 0 <= i < packets.len() && of_size(size)(#[trigger] packets[i]);
            assert(sizes[i] == size);
        }
    }
    vstd::set_lib::lemma_set_subset_finite(sizes.to_set(), counts.dom());
}

proof fn lemma_gaps_prefix(packets: Seq<Packet>, p: Packet, n: int)
    requires
        n <= packets.len(),
    ensures
        gaps(packets.push(p), n) == gaps(packets, n),
    decreases n,
{
    if n > 1 {
        lemma_gaps_prefix(packets, p, n - 1);
    }
}

proof fn lemma_bin_of_nanos(d: int)
    requires
        0 <= d,
    ensures
        d / 1_000_000 / 100 == d / 100_000_000,
{
    assert(d / 1_000_000 / 100 == d / 100_000_000) by (nonlinear_arith);
}

/// A trace of one packet: that packet, one burst, one bin, one size, no duration. A trace of none:
/// nothing at all.
pub proof fn law_shortest_traces(p: Packet, s: Summary, none: Summary)
    requires
        s.sums_up(seq![p]),
        none.sums_up(Seq::empty()),
    ensures
        s.packets == 1,
        s.sent == if p.sent {
            1int
        } else {
            0
        },
        s.received == 1 - s.sent,
        s.bytes == p.bytes,
        s.bursts == 1,
        s.duration_ms == 0,
        s.occupied_bins == 1,
        s.total_bins == 1,
        s.unique_sizes == 1,
        s.size_counts@.contains_key(p.bytes),
        s.size_counts@[p.bytes] == 1,
        none.packets == 0 && none.sent == 0 && none.received == 0 && none.bytes == 0
            && none.duration_ms == 0 && none.occupied_bins == 0 && none.total_bins == 0
            && none.bursts == 0 && none.unique_sizes == 0,
{
    let one = seq![p];
    assert(one.drop_last() =~= Seq::empty());
    assert(one.last() == p);
    assert(count(one.drop_last(), sent_ones()) == 0);
    assert(count(one.drop_last(), received_ones()) == 0);
    assert(total_bytes(one.drop_last()) == 0);
    law_one_size_shows_once(s, one, p.bytes);
    let bins = Seq::new(1, |i: int| bin(one, i));
    let none_yet = Seq::<int>::empty();
    assert(bins =~= none_yet.push(bin(one, 0)));
    none_yet.lemma_push_to_set_commute(bin(one, 0));
    assert(none_yet.to_set() =~= Set::<int>::empty());
    assert(none.size_counts@.dom() =~= Set::<usize>::empty()) by {
        assert forall|size: usize| !none.size_counts@.dom().contains(size) by {
            assert(count(Seq::empty(), of_size(size)) == 0);
            assert(none.size_counts@.contains_key(size) <==> count(
                Seq::<Packet>::empty(),
                of_size(size),
            ) > 0);
        }
    }
}

/// Whether `s` holds no comma.
pub open spec fn comma_free(s: Seq<char>) -> bool {
    forall|i: int| 0 <= i < s.len() ==> #[trigger] s[i] != ','
}

/// What a line stands for, column by column: the time, `s` for sent and anything else for
/// received, and the size, which is 0 where there is no third column. Whitespace around a column
/// does not matter, and a fourth column does not either. A time or a size that is no number, or
/// too large, is an error that quotes it.
pub proof fn law_lines_by_column(a: Seq<char>, b: Seq<char>, c: Seq<char>, more: Seq<char>)
    requires
        comma_free(a),
        comma_free(b),
        comma_free(c),
    ensures
        ({
            let time = text::number(text::trimmed(a));
            let size = text::number(text::trimmed(c));
            let two = line_packet(a + seq![','] + b);
            let three = line_packet(a + seq![','] + b + seq![','] + c);
            let sent = text::trimmed(b) =~= seq!['s'];
            let good_time = time is Some && time->Some_0 <= u128::MAX;
            let good_size = size is Some && size->Some_0 <= usize::MAX;
            &&& line_packet(a) is Err
            &&& good_time ==> two is Ok && two->Ok_0.nanos == time->Some_0 && two->Ok_0.sent == sent
                && two->Ok_0.bytes == 0
            &&& good_time && good_size ==> three is Ok && three->Ok_0.nanos == time->Some_0
                && three->Ok_0.sent == sent && three->Ok_0.bytes == size->Some_0
            &&& good_time && !good_size ==> three == Err::<Packet, Seq<char>>(
                "bad size: "@ + text::trimmed(c),
            )
            &&& !good_time ==> two == Err::<Packet, Seq<char>>("bad time: "@ + text::trimmed(a))
            &&& !good_time ==> three == Err::<Packet, Seq<char>>("bad time: "@ + text::trimmed(a))
            &&& line_packet(a + seq![','] + b + seq![','] + c + seq![','] + more) == three
        }),
{
    let e = Seq::<char>::empty();
    let sep = seq![','];
    text::lemma_pieces_extend(e, a, ',');
    assert(e + a =~= a);
    assert(text::pieces(a, ',') =~= seq![a]);
    text::lemma_pieces_separate(a, ',');
    let l2 = a.push(',') + b;
    text::lemma_pieces_extend(a.push(','), b, ',');
    assert(e + b =~= b);
    assert(text::pieces(l2, ',') =~= seq![a, b]);
    assert(a + sep + b =~= l2);
    text::lemma_pieces_separate(l2, ',');
    let l3 = l2.push(',') + c;
    text::lemma_pieces_extend(l2.push(','), c, ',');
    assert(e + c =~= c);
    assert(text::pieces(l3, ',') =~= seq![a, b, c]);
    assert(a + sep + b + sep + c =~= l3);
    let l4 = l3.push(',') + more;
    assert(a + sep + b + sep + c + sep + more =~= l4);
    lemma_pieces_prefix(l3.push(','), more, ',');
    text::lemma_pieces_separate(l3, ',');
    let p4 = text::pieces(l4, ',');
    let p3 = text::pieces(l3.push(','), ',');
    assert(p3 =~= seq![a, b, c, e]);
    assert(p4[0] == p3[0] && p4[1] == p3[1] && p4[2] == p3[2]);
    reveal_strlit("s");
    reveal_strlit("0");
    assert("s"@ =~= seq!['s']);
    assert("0"@ =~= seq!['0']);
    text::law_reading_numbers(e, '0');
}

/// Whatever is put behind a text, its pieces stay, but for the last.
proof fn lemma_pieces_prefix(a: Seq<char>, b: Seq<char>, sep: char)
    ensures
        text::pieces(a, sep).len() > 0,
        text::pieces(a, sep).len() <= text::pieces(a + b, sep).len(),
        forall|k: int|
            0 <= k < text::pieces(a, sep).len() - 1 ==> #[trigger] text::pieces(a + b, sep)[k]
                == text::pieces(a, sep)[k],
    decreases b.len(),
{
    if b.len() == 0 {
        assert(a + b =~= a);
        text::law_pieces_join(a, sep);
    } else {
        lemma_pieces_prefix(a, b.drop_last(), sep);
        assert((a + b).drop_last() =~= a + b.drop_last());
        assert((a + b).last() == b.last());
    }
}

/// A trace is read line by line: a line of whitespace adds nothing, any other line adds its packet
/// at the end, and the first line that stands for no packet is what is wrong with the trace.
pub proof fn law_traces_are_read_line_by_line(lines: Seq<Seq<char>>, line: Seq<char>)
    ensures
        line_packets(Seq::empty()) == Ok::<Seq<Packet>, Seq<char>>(Seq::empty()),
        match line_packets(lines) {
            Err(e) => line_packets(lines.push(line)) == Err::<Seq<Packet>, Seq<char>>(e),
            Ok(before) => if text::trimmed(line).len() == 0 {
                line_packets(lines.push(line)) == Ok::<Seq<Packet>, Seq<char>>(before)
            } else {
                match line_packet(line) {
                    Ok(p) => line_packets(lines.push(line)) == Ok::<Seq<Packet>, Seq<char>>(
                        before.push(p),
                    ),
                    Err(e) => line_packets(lines.push(line)) == Err::<Seq<Packet>, Seq<char>>(e),
                }
            },
        },
{
    assert(lines.push(line).drop_last() =~= lines);
}

} // verus!
