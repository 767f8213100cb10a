//! MIDI messages: the bytes the output port methods send, and the packet
//! lists the input port receives.
use vstd::prelude::*;
use crate::strpack::pow256;
use crate::strpack::value_le;

verus! {

// ─── Messages ────────────────────────────────────────────────────────────────

/// The low nibble of a status byte for a channel counted from 1: the low
/// four bits of the channel less one (wrapping around).
pub open spec fn channel_nibble(channel: i64) -> int {
    (vstd::wrapping::i64_specs::wrapping_sub(channel, 1) & 0xF) as int
}

fn channel_bits(channel: i64) -> (r: u8)
    ensures
        r as int == channel_nibble(channel),
        r < 16,
{
    let w = channel.wrapping_sub(1);
    assert(0 <= (w & 0xF) < 16) by (bit_vector);
    (w & 0xF) as u8
}

/// The low seven bits of a data value.
fn data7(v: i64) -> (r: u8)
    ensures
        r as int == v & 0x7F,
        r < 128,
{
    assert(0 <= (v & 0x7F) < 128) by (bit_vector);
    (v & 0x7F) as u8
}

/// `port:note_on(channel, note, velocity)`.
pub fn note_on(channel: i64, note: i64, velocity: i64) -> (r: Vec<u8>)
    ensures
        r@ == seq![(0x90 + channel_nibble(channel)) as u8, (note & 0x7F) as u8, (velocity & 0x7F) as u8],
{
    let ch = channel_bits(channel);
    vec![0x90u8 + ch, data7(note), data7(velocity)]
}

/// `port:note_off(channel, note [, velocity])`: the velocity defaults to 64.
pub fn note_off(channel: i64, note: i64, velocity: Option<i64>) -> (r: Vec<u8>)
    ensures
        r@ == seq![
            (0x80 + channel_nibble(channel)) as u8,
            (note & 0x7F) as u8,
            match velocity {
                Some(v) => (v & 0x7F) as u8,
                None => 64u8,
            },
        ],
{
    let ch = channel_bits(channel);
    let vel = match velocity {
        Some(v) => data7(v),
        None => 64u8,
    };
    vec![0x80u8 + ch, data7(note), vel]
}

/// `port:cc(channel, controller, value)`: a control change.
pub fn control_change(channel: i64, controller: i64, value: i64) -> (r: Vec<u8>)
    ensures
        r@ == seq![(0xB0 + channel_nibble(channel)) as u8, (controller & 0x7F) as u8, (value & 0x7F) as u8],
{
    let ch = channel_bits(channel);
    vec![0xB0u8 + ch, data7(controller), data7(value)]
}

/// `port:program_change(channel, program)`.
pub fn program_change(channel: i64, program: i64) -> (r: Vec<u8>)
    ensures
        r@ == seq![(0xC0 + channel_nibble(channel)) as u8, (program & 0x7F) as u8],
{
    let ch = channel_bits(channel);
    vec![0xC0u8 + ch, data7(program)]
}

/// `port:aftertouch(channel, note, pressure)`: polyphonic key pressure.
pub fn aftertouch(channel: i64, note: i64, pressure: i64) -> (r: Vec<u8>)
    ensures
        r@ == seq![(0xA0 + channel_nibble(channel)) as u8, (note & 0x7F) as u8, (pressure & 0x7F) as u8],
{
    let ch = channel_bits(channel);
    vec![0xA0u8 + ch, data7(note), data7(pressure)]
}

/// The 14-bit value of a pitch bend: the value clamped to -8192..8191,
/// moved up by 8192.
pub open spec fn bend_value(value: i64) -> int {
    (if value < -8192 {
        -8192
    } else if value > 8191 {
        8191
    } else {
        value as int
    }) + 8192
}

/// `port:pitch_bend(channel, value)`: the bend in two bytes of seven bits,
/// the low ones first.
pub fn pitch_bend(channel: i64, value: i64) -> (r: Vec<u8>)
    ensures
        r@ == seq![(0xE0 + channel_nibble(channel)) as u8, (bend_value(value) % 128) as u8,
            (bend_value(value) / 128) as u8],
{
    let ch = channel_bits(channel);
    let v: i64 = if value < -8192 {
        -8192
    } else if value > 8191 {
        8191
    } else {
        value
    };
    let bent: u16 = (v + 8192) as u16;
    let lsb: u16 = bent & 0x7F;
    let msb: u16 = (bent >> 7u16) & 0x7F;
    assert(bent & 0x7F == bent % 128) by (bit_vector);
    assert(bent < 16384 ==> (bent >> 7u16) & 0x7F == bent / 128) by (bit_vector);
    vec![0xE0u8 + ch, lsb as u8, msb as u8]
}

/// `port:clock()`: the timing clock byte.
pub fn clock() -> (r: Vec<u8>)
    ensures
        r@ == seq![0xF8u8],
{
    vec![0xF8u8]
}

/// `port:send(...)` with integer arguments: the low byte of each.
pub fn send_data(values: &[i64]) -> (r: Vec<u8>)
    ensures
        r@ == values@.map_values(|v: i64| (v & 0xFF) as u8),
{
    let mut out: Vec<u8> = Vec::new();
    let mut i: usize = 0;
    while i < values.len()
        invariant
            i <= values@.len(),
            out@ == values@.take(i as int).map_values(|v: i64| (v & 0xFF) as u8),
        decreases values@.len() - i,
    {
        let v = values[i];
        assert(0 <= (v & 0xFF) < 256) by (bit_vector);
        out.push((v & 0xFF) as u8);
        i = i + 1;
        proof {
            assert(out@ =~= values@.take(i as int).map_values(|v: i64| (v & 0xFF) as u8));
        }
    }
    proof {
        assert(values@.take(values@.len() as int) =~= values@);
    }
    out
}


// ─── Received packets ────────────────────────────────────────────────────────

/// A received message: its time stamp and its bytes.
#[derive(Debug)]
pub struct MidiMsg {
    pub timestamp: u64,
    pub data: Vec<u8>,
}

pub open spec fn msg_view(m: MidiMsg) -> (u64, Seq<u8>) {
    (m.timestamp, m.data@)
}

/// The messages the input port keeps at most; older ones are dropped.
pub const MIDI_BUF_CAP: usize = 4096;

/// The little-endian number in the `n` bytes of `s` from `p`.
pub open spec fn le_at(s: Seq<u8>, p: int, n: int) -> nat {
    value_le(s.subrange(p, p + n))
}

/// The packets of a packet list from `p` on, `k` of them: each is an
/// 8-byte time stamp, a 2-byte length and that many bytes of data, padded
/// to a multiple of four bytes; `None` when the list is cut short.
pub open spec fn packets_from(s: Seq<u8>, p: int, k: nat) -> Option<Seq<(u64, Seq<u8>)>>
    decreases k,
{
    if k == 0 {
        Some(Seq::empty())
    } else if p < 0 || p + 10 > s.len() {
        None
    } else {
        let len = le_at(s, p + 8, 2);
        if p + 10 + len > s.len() {
            None
        } else {
            let adv = (13 + len) / 4 * 4;
            match packets_from(s, p + adv, (k - 1) as nat) {
                Some(rest) => Some(seq![(le_at(s, p, 8) as u64, s.subrange(p + 10, p + 10 + len))] + rest),
                None => None,
            }
        }
    }
}

/// A packet list: a 4-byte count of packets, then the packets.
pub open spec fn spec_parse_packets(s: Seq<u8>) -> Option<Seq<(u64, Seq<u8>)>> {
    if s.len() < 4 {
        None
    } else {
        packets_from(s, 4, le_at(s, 0, 4))
    }
}

pub(crate) fn read_le(s: &[u8], p: usize, n: usize) -> (r: u64)
    requires
        n <= 8,
        p + n <= s@.len(),
    ensures
        r as nat == le_at(s@, p as int, n as int),
{
    let total = s.len();
    let mut v: u64 = 0;
    let mut i: usize = n;
    proof {
        assert(s@.subrange(p + n, p + n) =~= Seq::<u8>::empty());
    }
    while i > 0
        invariant
            i <= n <= 8,
            p + n <= s@.len(),
            total == s@.len(),
            v as nat == value_le(s@.subrange(p + i, p + n)),
        decreases i,
    {
        i = i - 1;
        let ghost sub = s@.subrange(p + i, p + n);
        proof {
            assert(sub.drop_first() =~= s@.subrange(p + i + 1, p + n));
            crate::strpack::lemma_value_le_bound(s@.subrange(p + i + 1, p + n));
            crate::strpack::lemma_pow256_mono((n - i - 1) as nat, 7);
            crate::strpack::lemma_pow256_values();
            assert(s@.subrange(p + i + 1, p + n).len() == n - i - 1);
            assert(v < 0x100000000000000);
            assert(value_le(sub) == s@[p + i] + 256 * value_le(sub.drop_first()));
        }
        let b = s[p + i] as u64;
        assert(v * 256 + b <= 0xffff_ffff_ffff_ffff) by (nonlinear_arith)
            requires
                v < 0x100000000000000,
                b < 256,
        ;
        v = v * 256 + b;
    }
    v
}

proof fn lemma_padded(len: nat)
    ensures
        (13 + len) / 4 * 4 >= 10 + len,
        (13 + len) / 4 * 4 > 0,
{
}

/// Reads a packet list as the input port's callback does (see
/// `spec_parse_packets`).
pub fn parse_packets(s: &[u8]) -> (r: Option<Vec<MidiMsg>>)
    ensures
        match spec_parse_packets(s@) {
            Some(ms) => r matches Some(v) && v@.map_values(|m: MidiMsg| msg_view(m)) == ms,
            None => r is None,
        },
{
    let n = s.len();
    if n < 4 {
        return None;
    }
    let count = read_le(s, 0, 4);
    let mut out: Vec<MidiMsg> = Vec::new();
    let mut p: usize = 4;
    let mut k: u64 = count;
    proof {
        assert(out@.map_values(|m: MidiMsg| msg_view(m)) =~= Seq::<(u64, Seq<u8>)>::empty());
    }
    while k > 0
        invariant
            n == s@.len(),
            k <= count,
            spec_parse_packets(s@) == (match packets_from(s@, p as int, k as nat) {
                Some(rest) => Some(out@.map_values(|m: MidiMsg| msg_view(m)) + rest),
                None => None::<Seq<(u64, Seq<u8>)>>,
            }),
        decreases k,
    {
        if p > n || n - p < 10 {
            return None;
        }
        let len64 = read_le(s, p + 8, 2);
        proof {
            crate::strpack::lemma_value_le_bound(s@.subrange(p + 8, p + 10));
            crate::strpack::lemma_pow256_values();
        }
        let len = len64 as usize;
        if n - p - 10 < len {
            return None;
        }
        let ts = read_le(s, p, 8);
        let data = vstd::slice::slice_to_vec(&s[p + 10..p + 10 + len]);
        let ghost before = out@.map_values(|m: MidiMsg| msg_view(m));
        out.push(MidiMsg { timestamp: ts, data });
        proof {
            lemma_padded(len as nat);
            assert(le_at(s@, p + 8, 2) == len);
            assert(packets_from(s@, p as int, k as nat) == (match packets_from(s@, (p + (13 + len) / 4 * 4) as int, (k - 1) as nat) {
                Some(rest) => Some(seq![(ts, s@.subrange(p + 10, p + 10 + len))] + rest),
                None => None,
            }));
            assert(out@.map_values(|m: MidiMsg| msg_view(m)) =~= before + seq![(ts, s@.subrange(p + 10, p + 10 + len))]);
            match packets_from(s@, (p + (13 + len) / 4 * 4) as int, (k - 1) as nat) {
                Some(rest) => {
                    assert(before + (seq![(ts, s@.subrange(p + 10, p + 10 + len))] + rest) =~= out@.map_values(|m: MidiMsg| msg_view(m)) + rest);
                },
                None => {},
            }
        }
        let adv = (13 + len) / 4 * 4;
        if adv > n - p {
            if k == 1 {
                proof {
                    assert(out@.map_values(|m: MidiMsg| msg_view(m)) + Seq::<(u64, Seq<u8>)>::empty() =~= out@.map_values(|m: MidiMsg| msg_view(m)));
                }
                return Some(out);
            }
            return None;
        }
        p = p + adv;
        k = k - 1;
    }
    proof {
        assert(out@.map_values(|m: MidiMsg| msg_view(m)) + Seq::<(u64, Seq<u8>)>::empty() =~= out@.map_values(|m: MidiMsg| msg_view(m)));
    }
    Some(out)
}


/// The queue after a message joins it at the back, the oldest ones dropped
/// beyond `MIDI_BUF_CAP`.
pub open spec fn capped_push(q: Seq<(u64, Seq<u8>)>, m: (u64, Seq<u8>)) -> Seq<(u64, Seq<u8>)> {
    let t = q.push(m);
    if t.len() > MIDI_BUF_CAP {
        t.skip(t.len() - MIDI_BUF_CAP)
    } else {
        t
    }
}

/// The queue after the messages `ms` join it in order.
pub open spec fn capped_push_all(q: Seq<(u64, Seq<u8>)>, ms: Seq<(u64, Seq<u8>)>) -> Seq<(u64, Seq<u8>)>
    decreases ms.len(),
{
    if ms.len() == 0 {
        q
    } else {
        capped_push_all(capped_push(q, ms[0]), ms.drop_first())
    }
}

pub open spec fn queue_view(q: Seq<MidiMsg>) -> Seq<(u64, Seq<u8>)> {
    q.map_values(|m: MidiMsg| msg_view(m))
}

/// Adds a received message to the input queue, dropping the oldest ones
/// beyond `MIDI_BUF_CAP`.
pub fn push_capped(queue: &mut Vec<MidiMsg>, m: MidiMsg)
    ensures
        queue_view(final(queue)@) == capped_push(queue_view(old(queue)@), msg_view(m)),
{
    let ghost t = queue_view(old(queue)@).push(msg_view(m));
    queue.push(m);
    proof {
        assert(queue_view(queue@) =~= t);
    }
    let ghost dropped: int = 0;
    while queue.len() > MIDI_BUF_CAP
        invariant
            0 <= dropped <= t.len(),
            queue_view(queue@) == t.skip(dropped),
            dropped > 0 ==> t.len() - dropped >= MIDI_BUF_CAP,
        decreases queue.len(),
    {
        let ghost before = queue@;
        queue.remove(0);
        proof {
            assert(queue_view(queue@) =~= queue_view(before).drop_first());
            assert(t.skip(dropped).drop_first() =~= t.skip(dropped + 1));
            dropped = dropped + 1;
        }
    }
    proof {
        if t.len() > MIDI_BUF_CAP {
            assert(dropped == t.len() - MIDI_BUF_CAP);
        } else {
            assert(dropped == 0);
            assert(t.skip(0) =~= t);
        }
    }
}

/// What the input port does with a packet list it receives: its messages
/// join the queue in order (see `push_capped`); a list cut short adds
/// nothing and is reported (`false`).
pub fn receive_packets(queue: &mut Vec<MidiMsg>, list: &[u8]) -> (r: bool)
    ensures
        match spec_parse_packets(list@) {
            Some(ms) => r && queue_view(final(queue)@) == capped_push_all(queue_view(old(queue)@), ms),
            None => !r && final(queue)@ == old(queue)@,
        },
{
    match parse_packets(list) {
        None => false,
        Some(msgs) => {
            let ghost ms = msgs@.map_values(|m: MidiMsg| msg_view(m));
            let ghost q0 = queue_view(queue@);
            let mut rest = msgs;
            let mut i: usize = 0;
            let n = rest.len();
            proof {
                assert(ms.skip(0) =~= ms);
            }
            while rest.len() > 0
                invariant
                    rest@.len() + i == n,
                    n == ms.len(),
                    queue_view(rest@) == ms.skip(i as int),
                    capped_push_all(queue_view(queue@), ms.skip(i as int)) == capped_push_all(q0, ms),
                decreases rest.len(),
            {
                let ghost before = rest@;
                let m = rest.remove(0);
                proof {
                    assert(msg_view(m) == queue_view(before)[0]);
                    assert(queue_view(rest@) =~= queue_view(before).drop_first());
                    assert(ms.skip(i as int).drop_first() =~= ms.skip(i + 1));
                }
                push_capped(queue, m);
                i = i + 1;
            }
            proof {
                assert(ms.skip(n as int) =~= Seq::<(u64, Seq<u8>)>::empty());
            }
            true
        },
    }
}


/// The input queue never holds more than `MIDI_BUF_CAP` messages, and the
/// message just received is always kept, as the newest.
pub proof fn lemma_queue_bounded(q: Seq<(u64, Seq<u8>)>, m: (u64, Seq<u8>))
    ensures
        capped_push(q, m).len() <= MIDI_BUF_CAP,
        capped_push(q, m).last() == m,
{
}


// ─── Choosing an endpoint ────────────────────────────────────────────────────

/// How a script names a source or destination.
#[derive(Debug, Clone, PartialEq, Eq)]
pub enum EndpointArg {
    /// A 1-based position among the endpoints (a float that is not an
    /// integer counts as 0).
    Index(i64),
    /// The endpoint's display name.
    Name(Vec<u8>),
    /// Any other value.
    Other,
}

/// The first position at which `names` holds `want`.
pub open spec fn first_named(names: Seq<Seq<u8>>, want: Seq<u8>) -> Option<int> {
    if exists|k: int| 0 <= k < names.len() && names[k] == want {
        Some(choose|k: int| 0 <= k < names.len() && names[k] == want && forall|j: int| 0 <= j < k ==> names[j] != want)
    } else {
        None
    }
}

pub open spec fn endpoint_names(names: Seq<Vec<u8>>) -> Seq<Seq<u8>> {
    names.map_values(|v: Vec<u8>| v@)
}

/// The first position at which `names` holds `want`.
fn find_name(names: &[Vec<u8>], want: &[u8]) -> (r: Option<usize>)
    ensures
        match first_named(endpoint_names(names@), want@) {
            Some(k) => r == Some(k as usize),
            None => r is None,
        },
{
    let ghost ns = endpoint_names(names@);
    let mut k: usize = 0;
    while k < names.len()
        invariant
            k <= names@.len(),
            ns == endpoint_names(names@),
            forall|j: int| 0 <= j < k ==> ns[j] != want@,
        decreases names.len() - k,
    {
        if crate::toml::bytes_eq(names[k].as_slice(), want) {
            proof {
                assert(ns[k as int] == want@);
                let c = choose|c: int| 0 <= c < ns.len() && ns[c] == want@ && forall|j: int| 0 <= j < c ==> ns[j] != want@;
                if c > k {
                    assert(ns[k as int] != want@);
                }
            }
            return Some(k);
        }
        k = k + 1;
    }
    None
}

/// Picks the endpoint an argument names among endpoints with display names
/// `names` (0-based position), or none.
pub fn resolve_endpoint(names: &[Vec<u8>], arg: &EndpointArg) -> (r: Option<usize>)
    ensures
        match *arg {
            EndpointArg::Index(i) => r == (if 1 <= i <= names@.len() { Some((i - 1) as usize) } else { None::<usize> }),
            EndpointArg::Name(w) => match first_named(endpoint_names(names@), w@) {
                Some(k) => r == Some(k as usize),
                None => r is None,
            },
            EndpointArg::Other => r is None,
        },
{
    match arg {
        EndpointArg::Index(i) => {
            if *i < 1 || *i as u64 > names.len() as u64 {
                None
            } else {
                Some((*i - 1) as usize)
            }
        },
        EndpointArg::Name(w) => find_name(names, w.as_slice()),
        EndpointArg::Other => None,
    }
}

} // verus!
