//! The server-timing header: rendering on the service side, parsing on the
//! harness side, and the proof that the two agree. A header is one or two
//! entries of the form `name;dur=<ms>` joined by commas: an `s3read` entry
//! always, and a `resize` entry exactly when a resize was performed.

use vstd::prelude::*;

use crate::decimal::{
    frac3_digits,
    dec_digits, find_byte_from, find_from, is_digit, lemma_dec_digits_are_digits,
    lemma_find_from_exact, lemma_find_from_props, lemma_ms_round_trip, ms_digits, ms_val, parse_ms,
    push_ms, subvec, DOT,
};

verus! {

/// Byte value of the ASCII comma.
pub const COMMA: u8 = 44;
/// Byte value of the ASCII semicolon.
pub const SEMI: u8 = 59;

/// The bytes of the stage name `s3read`.
pub open spec fn s3read_name() -> Seq<u8> {
    seq![115u8, 51u8, 114u8, 101u8, 97u8, 100u8]
}

/// The bytes of the stage name `resize`.
pub open spec fn resize_name() -> Seq<u8> {
    seq![114u8, 101u8, 115u8, 105u8, 122u8, 101u8]
}

/// The bytes of `dur=`.
pub open spec fn dur_prefix() -> Seq<u8> {
    seq![100u8, 117u8, 114u8, 61u8]
}

/// The stage name `s3read` as a byte vector.
pub fn s3read_label() -> (r: Vec<u8>)
    ensures
        r@ == s3read_name(),
{
    let mut v: Vec<u8> = Vec::new();
    v.push(115);
    v.push(51);
    v.push(114);
    v.push(101);
    v.push(97);
    v.push(100);
    proof {
        assert(v@ =~= s3read_name());
    }
    v
}

/// The stage name `resize` as a byte vector.
pub fn resize_label() -> (r: Vec<u8>)
    ensures
        r@ == resize_name(),
{
    let mut v: Vec<u8> = Vec::new();
    v.push(114);
    v.push(101);
    v.push(115);
    v.push(105);
    v.push(122);
    v.push(101);
    proof {
        assert(v@ =~= resize_name());
    }
    v
}

/// One rendered entry: `name;dur=` followed by the duration in milliseconds
/// with three decimal places.
pub open spec fn entry_bytes(name: Seq<u8>, us: nat) -> Seq<u8> {
    name + seq![SEMI] + dur_prefix() + ms_digits(us)
}

/// The whole header: the `s3read` entry, then a `resize` entry exactly when
/// a resize duration is present.
pub open spec fn timing_header_bytes(s3read_us: nat, resize_us: Option<nat>) -> Seq<u8> {
    match resize_us {
        None => entry_bytes(s3read_name(), s3read_us),
        Some(r) => entry_bytes(s3read_name(), s3read_us) + seq![COMMA] + entry_bytes(
            resize_name(),
            r,
        ),
    }
}

/// Appends `name;dur=<ms>` to `out`.
fn push_entry(name: &Vec<u8>, us: u64, out: &mut Vec<u8>)
    ensures
        final(out)@ == old(out)@ + entry_bytes(name@, us as nat),
{
    let mut i: usize = 0;
    while i < name.len()
        invariant
            0 <= i <= name@.len(),
            out@ == old(out)@ + name@.take(i as int),
        decreases name@.len() - i,
    {
        out.push(name[i]);
        proof {
            assert(out@ =~= old(out)@ + name@.take(i + 1));
        }
        i = i + 1;
    }
    proof {
        assert(name@.take(name@.len() as int) =~= name@);
    }
    out.push(SEMI);
    out.push(100);
    out.push(117);
    out.push(114);
    out.push(61);
    push_ms(us, out);
    proof {
        assert(out@ =~= old(out)@ + entry_bytes(name@, us as nat));
    }
}

/// Renders the server-timing header value for a request whose origin read
/// took `s3read_us` and whose resize, if one was performed, took
/// `resize_us`.
pub fn render_timing_header(s3read_us: u64, resize_us: Option<u64>) -> (r: Vec<u8>)
    ensures
        r@ == timing_header_bytes(
            s3read_us as nat,
            match resize_us {
                Some(v) => Some(v as nat),
                None => None,
            },
        ),
{
    let mut out: Vec<u8> = Vec::new();
    let s3 = s3read_label();
    push_entry(&s3, s3read_us, &mut out);
    match resize_us {
        Some(v) => {
            out.push(COMMA);
            let rz = resize_label();
            push_entry(&rz, v, &mut out);
            proof {
                assert(out@ =~= timing_header_bytes(s3read_us as nat, Some(v as nat)));
            }
        },
        None => {
            proof {
                assert(out@ =~= timing_header_bytes(s3read_us as nat, None::<nat>));
            }
        },
    }
    out
}

/// What one comma-separated segment denotes: the name before the first
/// semicolon and the duration behind `dur=`, in whole microseconds. `None`
/// where the segment has another shape.
pub open spec fn entry_val(seg: Seq<u8>) -> Option<(Seq<u8>, nat)> {
    let d = find_from(seg, SEMI, 0);
    if d == seg.len() {
        None
    } else {
        let name = seg.take(d);
        let rest = seg.skip(d + 1);
        if rest.len() >= 4 && rest.take(4) == dur_prefix() {
            match ms_val(rest.skip(4)) {
                Some(v) => Some((name, v)),
                None => None,
            }
        } else {
            None
        }
    }
}

/// The comma-separated segments of `s`; never empty.
pub open spec fn split_on(s: Seq<u8>, b: u8) -> Seq<Seq<u8>>
    decreases s.len(),
{
    let d = find_from(s, b, 0);
    if 0 <= d < s.len() {
        seq![s.take(d)] + split_on(s.skip(d + 1), b)
    } else {
        seq![s]
    }
}

/// The denotation of a list of segments: every segment must denote an
/// entry.
pub open spec fn entries_val(segs: Seq<Seq<u8>>) -> Option<Seq<(Seq<u8>, nat)>>
    decreases segs.len(),
{
    if segs.len() == 0 {
        Some(Seq::empty())
    } else {
        match entry_val(segs[0]) {
            Some(e) => match entries_val(segs.skip(1)) {
                Some(rest) => Some(seq![e] + rest),
                None => None,
            },
            None => None,
        }
    }
}

/// What a server-timing header denotes: its entries in order, or nothing
/// where any segment is malformed.
pub open spec fn timing_entries(s: Seq<u8>) -> Option<Seq<(Seq<u8>, nat)>> {
    entries_val(split_on(s, COMMA))
}

/// A parsed timing entry: a stage name and its duration in whole
/// microseconds.
pub struct TimingEntry {
    pub name: Vec<u8>,
    pub us: u64,
}

/// The mathematical view of a parsed entry list.
pub open spec fn entries_view(es: Seq<TimingEntry>) -> Seq<(Seq<u8>, nat)> {
    es.map(|i: int, e: TimingEntry| (e.name@, e.us as nat))
}

/// A header denotes entries that all fit in a `u64` of microseconds.
pub open spec fn timing_parse_ok(s: Seq<u8>) -> bool {
    match timing_entries(s) {
        Some(es) => forall|i: int| 0 <= i < es.len() ==> (#[trigger] es[i]).1 <= u64::MAX,
        None => false,
    }
}

/// One unfolding step of `entries_val` on a non-empty segment list.
proof fn lemma_entries_val_unfold(segs: Seq<Seq<u8>>)
    requires
        segs.len() > 0,
    ensures
        entry_val(segs[0]) is None ==> entries_val(segs) is None,
        entry_val(segs[0]) is Some && entries_val(segs.skip(1)) is None ==> entries_val(segs)
            is None,
        entry_val(segs[0]) is Some && entries_val(segs.skip(1)) is Some ==> entries_val(segs)
            == Some(seq![entry_val(segs[0])->Some_0] + entries_val(segs.skip(1))->Some_0),
{
}

/// Reads one comma-separated segment.
fn parse_entry(seg: &Vec<u8>) -> (r: Option<TimingEntry>)
    ensures
        match r {
            Some(e) => entry_val(seg@) == Some((e.name@, e.us as nat)),
            None => entry_val(seg@) is None || entry_val(seg@)->Some_0.1 > u64::MAX,
        },
{
    proof {
        lemma_find_from_props(seg@, SEMI, 0);
    }
    let d = find_byte_from(seg, SEMI, 0);
    if d == seg.len() {
        return None;
    }
    let name = subvec(seg, 0, d);
    let rest = subvec(seg, d + 1, seg.len());
    proof {
        assert(name@ =~= seg@.take(d as int));
        assert(rest@ =~= seg@.skip(d + 1));
    }
    if rest.len() < 4 {
        return None;
    }
    if rest[0] != 100 || rest[1] != 117 || rest[2] != 114 || rest[3] != 61 {
        proof {
            assert(rest@.take(4) != dur_prefix());
        }
        return None;
    }
    proof {
        assert(rest@.take(4) =~= dur_prefix());
    }
    let val = subvec(&rest, 4, rest.len());
    proof {
        assert(val@ =~= rest@.skip(4));
    }
    match parse_ms(&val) {
        Some(v) => Some(TimingEntry { name, us: v }),
        None => None,
    }
}

/// Reads a whole server-timing header value into its entries, in order.
/// Returns `None` exactly where the header does not denote entries that fit
/// in a `u64` of microseconds each.
pub fn parse_timing_header(header: &Vec<u8>) -> (r: Option<Vec<TimingEntry>>)
    ensures
        match r {
            Some(es) => timing_entries(header@) == Some(entries_view(es@)) && timing_parse_ok(
                header@,
            ),
            None => !timing_parse_ok(header@),
        },
    decreases header@.len(),
{
    proof {
        lemma_find_from_props(header@, COMMA, 0);
    }
    let d = find_byte_from(header, COMMA, 0);
    if d == header.len() {
        proof {
            assert(split_on(header@, COMMA) =~= seq![header@]);
            assert(split_on(header@, COMMA).skip(1) =~= Seq::<Seq<u8>>::empty());
        }
        match parse_entry(header) {
            Some(e) => {
                let mut out: Vec<TimingEntry> = Vec::new();
                out.push(e);
                proof {
                    assert(entries_view(out@) =~= seq![(e.name@, e.us as nat)] + Seq::<(
                        Seq<u8>,
                        nat,
                    )>::empty());
                    let segs = seq![header@];
                    assert(timing_entries(header@) == entries_val(segs));
                    lemma_entries_val_unfold(segs);
                    assert(entries_val(segs.skip(1)) == Some(Seq::<(Seq<u8>, nat)>::empty()));
                    let e0 = (e.name@, e.us as nat);
                    let full = seq![e0] + Seq::<(Seq<u8>, nat)>::empty();
                    assert(timing_entries(header@) == Some(full));
                    assert(forall|i: int|
                        0 <= i < full.len() ==> (#[trigger] full[i]).1 <= u64::MAX);
                }
                Some(out)
            },
            None => {
                proof {
                    let segs = seq![header@];
                    assert(timing_entries(header@) == entries_val(segs));
                    lemma_entries_val_unfold(segs);
                    assert(entries_val(segs.skip(1)) == Some(Seq::<(Seq<u8>, nat)>::empty()));
                    if entry_val(header@) is Some {
                        let e0 = entry_val(header@)->Some_0;
                        let full = seq![e0] + Seq::<(Seq<u8>, nat)>::empty();
                        assert(timing_entries(header@) == Some(full));
                        let es = timing_entries(header@)->Some_0;
                        assert(es[0] == e0);
                        assert(!(forall|i: int|
                            0 <= i < es.len() ==> (#[trigger] es[i]).1 <= u64::MAX)) by {
                            assert(es[0].1 > u64::MAX);
                        }
                    }
                    assert(!timing_parse_ok(header@));
                }
                None
            },
        }
    } else {
        let seg = subvec(header, 0, d);
        let rest = subvec(header, d + 1, header.len());
        proof {
            assert(seg@ =~= header@.take(d as int));
            assert(rest@ =~= header@.skip(d + 1));
            assert(split_on(header@, COMMA) == seq![seg@] + split_on(rest@, COMMA));
            assert((seq![seg@] + split_on(rest@, COMMA)).skip(1) =~= split_on(rest@, COMMA));
            assert(split_on(header@, COMMA)[0] == seg@);
        }
        let e = match parse_entry(&seg) {
            Some(e) => e,
            None => {
                proof {
                    let segs = seq![seg@] + split_on(rest@, COMMA);
                    assert(segs[0] == seg@);
                    assert(timing_entries(header@) == entries_val(segs));
                    lemma_entries_val_unfold(segs);
                    if entry_val(seg@) is Some && entries_val(segs.skip(1)) is Some {
                        let e0 = entry_val(seg@)->Some_0;
                        let es_t = entries_val(segs.skip(1))->Some_0;
                        assert(timing_entries(header@) == Some(seq![e0] + es_t));
                        let es = timing_entries(header@)->Some_0;
                        assert(es[0] == e0);
                        assert(!(forall|i: int|
                            0 <= i < es.len() ==> (#[trigger] es[i]).1 <= u64::MAX)) by {
                            assert(es[0].1 > u64::MAX);
                        }
                    }
                    assert(!timing_parse_ok(header@));
                }
                return None;
            },
        };
        let mut tail = match parse_timing_header(&rest) {
            Some(t) => t,
            None => {
                proof {
                    let segs = seq![seg@] + split_on(rest@, COMMA);
                    assert(timing_entries(header@) == entries_val(segs));
                    lemma_entries_val_unfold(segs);
                    let e0 = (e.name@, e.us as nat);
                    if timing_entries(rest@) is Some {
                        let es_t = timing_entries(rest@)->Some_0;
                        assert(entries_val(segs.skip(1)) == Some(es_t));
                        assert(exists|i: int| 0 <= i < es_t.len() && (#[trigger] es_t[i]).1
                            > u64::MAX);
                        let i = choose|i: int| 0 <= i < es_t.len() && (#[trigger] es_t[i]).1
                            > u64::MAX;
                        assert(timing_entries(header@) == Some(seq![e0] + es_t));
                        let es = timing_entries(header@)->Some_0;
                        assert(es[i + 1] == es_t[i]);
                        assert(!(forall|j: int|
                            0 <= j < es.len() ==> (#[trigger] es[j]).1 <= u64::MAX)) by {
                            assert(es[i + 1].1 > u64::MAX);
                        }
                    }
                    assert(!timing_parse_ok(header@));
                }
                return None;
            },
        };
        let ghost tail_view = tail@;
        let mut out: Vec<TimingEntry> = Vec::new();
        out.push(e);
        out.append(&mut tail);
        proof {
            assert(entries_view(out@) =~= seq![(e.name@, e.us as nat)] + entries_view(tail_view));
            let segs = seq![seg@] + split_on(rest@, COMMA);
            assert(timing_entries(header@) == entries_val(segs));
            lemma_entries_val_unfold(segs);
            let e0 = (e.name@, e.us as nat);
            let es_t = entries_view(tail_view);
            assert(entries_val(segs.skip(1)) == Some(es_t));
            let full = seq![e0] + es_t;
            assert(timing_entries(header@) == Some(full));
            assert forall|i: int| 0 <= i < full.len() implies (#[trigger] full[i]).1
                <= u64::MAX by {
                if i == 0 {
                    assert(full[0] == e0);
                } else {
                    assert(full[i] == es_t[i - 1]);
                    assert(timing_entries(rest@)->Some_0[i - 1] == es_t[i - 1]);
                }
            }
        }
        Some(out)
    }
}

/// No occurrence of `b` anywhere in `s`.
pub open spec fn no_byte(s: Seq<u8>, b: u8) -> bool {
    forall|i: int| 0 <= i < s.len() ==> s[i] != b
}

/// A rendered duration consists of digits and the dot alone.
proof fn lemma_ms_digits_no_byte(us: nat, b: u8)
    requires
        !is_digit(b),
        b != DOT,
    ensures
        no_byte(ms_digits(us), b),
{
    lemma_dec_digits_are_digits(us / 1000);
    let s = ms_digits(us);
    let ip = dec_digits(us / 1000);
    assert forall|i: int| 0 <= i < s.len() implies s[i] != b by {
        if i < ip.len() {
            assert(s[i] == ip[i]);
            assert(is_digit(ip[i]));
        } else if i == ip.len() {
            assert(s[i] == DOT);
        } else {
            let f = (us % 1000) as nat;
            assert(s[i] == frac3_digits(f)[i - ip.len() - 1]);
            assert(is_digit(frac3_digits(f)[i - ip.len() - 1]));
        }
    }
}

/// A rendered entry holds no byte besides the name, the semicolon, `dur=`,
/// digits and the dot.
proof fn lemma_entry_no_byte(name: Seq<u8>, us: nat, b: u8)
    requires
        no_byte(name, b),
        b != SEMI,
        !is_digit(b),
        b != DOT,
        b != 100,
        b != 117,
        b != 114,
        b != 61,
    ensures
        no_byte(entry_bytes(name, us), b),
{
    lemma_ms_digits_no_byte(us, b);
    let e = entry_bytes(name, us);
    let n = name.len() as int;
    assert forall|i: int| 0 <= i < e.len() implies e[i] != b by {
        if i < n {
            assert(e[i] == name[i]);
        } else if i == n {
            assert(e[i] == SEMI);
        } else if i < n + 5 {
            assert(e[i] == dur_prefix()[i - n - 1]);
        } else {
            assert(e[i] == ms_digits(us)[i - n - 5]);
            assert(no_byte(ms_digits(us), b));
        }
    }
}

/// Parsing a rendered entry gives back its name and duration.
proof fn lemma_entry_round_trip(name: Seq<u8>, us: nat)
    requires
        no_byte(name, SEMI),
    ensures
        entry_val(entry_bytes(name, us)) == Some((name, us)),
{
    let e = entry_bytes(name, us);
    let n = name.len() as int;
    assert(e[n] == SEMI);
    assert forall|j: int| 0 <= j < n implies e[j] != SEMI by {
        assert(e[j] == name[j]);
    }
    lemma_find_from_exact(e, SEMI, 0, n);
    assert(e.take(n) =~= name);
    let rest = e.skip(n + 1);
    assert(rest =~= dur_prefix() + ms_digits(us));
    assert(rest.take(4) =~= dur_prefix());
    assert(rest.skip(4) =~= ms_digits(us));
    lemma_ms_round_trip(us);
}

/// The server-timing header law: a rendered header parses back to exactly
/// its entries, so it always holds an `s3read` entry, and holds a `resize`
/// entry if and only if a resize duration was supplied.
pub proof fn lemma_timing_header_round_trip(s3read_us: nat, resize_us: Option<nat>)
    ensures
        timing_entries(timing_header_bytes(s3read_us, resize_us)) == Some(
            match resize_us {
                None => seq![(s3read_name(), s3read_us)],
                Some(r) => seq![(s3read_name(), s3read_us), (resize_name(), r)],
            },
        ),
{
    match resize_us {
        None => {
            let h = entry_bytes(s3read_name(), s3read_us);
            lemma_entry_no_byte(s3read_name(), s3read_us, COMMA);
            lemma_find_from_exact(h, COMMA, 0, h.len() as int);
            assert(split_on(h, COMMA) == seq![h]);
            lemma_entry_round_trip(s3read_name(), s3read_us);
            lemma_entries_val_unfold(seq![h]);
            assert(seq![h].skip(1) =~= Seq::<Seq<u8>>::empty());
            assert(entries_val(seq![h].skip(1)) == Some(Seq::<(Seq<u8>, nat)>::empty()));
            assert(seq![(s3read_name(), s3read_us)] + Seq::<(Seq<u8>, nat)>::empty()
                =~= seq![(s3read_name(), s3read_us)]);
        },
        Some(r) => {
            let e1 = entry_bytes(s3read_name(), s3read_us);
            let e2 = entry_bytes(resize_name(), r);
            let h = e1 + seq![COMMA] + e2;
            let n1 = e1.len() as int;
            lemma_entry_no_byte(s3read_name(), s3read_us, COMMA);
            lemma_entry_no_byte(resize_name(), r, COMMA);
            assert(h[n1] == COMMA);
            assert forall|j: int| 0 <= j < n1 implies h[j] != COMMA by {
                assert(h[j] == e1[j]);
            }
            lemma_find_from_exact(h, COMMA, 0, n1);
            assert(h.take(n1) =~= e1);
            assert(h.skip(n1 + 1) =~= e2);
            lemma_find_from_exact(e2, COMMA, 0, e2.len() as int);
            assert(split_on(e2, COMMA) == seq![e2]);
            assert(split_on(h, COMMA) == seq![e1] + seq![e2]);
            lemma_entry_round_trip(s3read_name(), s3read_us);
            lemma_entry_round_trip(resize_name(), r);
            let segs = seq![e1] + seq![e2];
            lemma_entries_val_unfold(segs);
            assert(segs[0] == e1);
            assert(segs.skip(1) =~= seq![e2]);
            lemma_entries_val_unfold(seq![e2]);
            assert(seq![e2].skip(1) =~= Seq::<Seq<u8>>::empty());
            assert(entries_val(seq![e2].skip(1)) == Some(Seq::<(Seq<u8>, nat)>::empty()));
            assert(seq![(resize_name(), r)] + Seq::<(Seq<u8>, nat)>::empty() =~= seq![
                (resize_name(), r),
            ]);
            assert(seq![(s3read_name(), s3read_us)] + seq![(resize_name(), r)] =~= seq![
                (s3read_name(), s3read_us),
                (resize_name(), r),
            ]);
        },
    }
}

/// Whether some parsed entry carries the given stage name.
pub open spec fn has_stage(es: Seq<(Seq<u8>, nat)>, name: Seq<u8>) -> bool {
    exists|i: int| 0 <= i < es.len() && (#[trigger] es[i]).0 == name
}

/// The header law in terms of stages: a rendered server-timing header
/// always parses, always holds an `s3read` entry, and holds a `resize`
/// entry if and only if a resize duration was supplied.
pub proof fn lemma_server_timing_stages(s3read_us: nat, resize_us: Option<nat>)
    ensures
        timing_entries(timing_header_bytes(s3read_us, resize_us)) is Some,
        has_stage(
            timing_entries(timing_header_bytes(s3read_us, resize_us))->Some_0,
            s3read_name(),
        ),
        has_stage(timing_entries(timing_header_bytes(s3read_us, resize_us))->Some_0, resize_name())
            <==> resize_us is Some,
{
    lemma_timing_header_round_trip(s3read_us, resize_us);
    let es = timing_entries(timing_header_bytes(s3read_us, resize_us))->Some_0;
    assert(es[0].0 == s3read_name());
    assert(s3read_name()[0] != resize_name()[0]);
    match resize_us {
        None => {
            assert(es.len() == 1);
        },
        Some(r) => {
            assert(es[1].0 == resize_name());
        },
    }
}

} // verus!
