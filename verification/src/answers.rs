//! What a bench answers, as text.
//!
//! An answer is one line: a list of actions, each an object that names itself.
//! Numbers are decimal, bytes are hexadecimal.

use vstd::prelude::*;

use crate::bench::{
    event, handles, is_shell, named_reason, reject_name, reset, sets_up, Answer, ChannelAnswer,
    Fault, GatewayAnswer, Json, Loaded, Machine, RecordsAnswer, Refused, RenderAnswer, Shell,
    SourcesAnswer, SourcesOutcome, ZoneAnswer,
};
use crate::channels::ClaimOutcome;
use crate::election::Role;
use crate::gateway::{Admitted, BindingError, Refusal};
use crate::q16::{Op, Q16};
use crate::records::{DigestEntry, Hlc};
use crate::render::{Ran, Rgb, Step};
use crate::sources::{Change, PushError, Removal};
use crate::uuid::Uuid;
use crate::wire::Datagram;
use crate::{Action, Destination};

verus! {

/// The character of a digit, in a base up to sixteen.
pub open spec fn digit(d: int) -> char {
    if d <= 0 {
        '0'
    } else if d == 1 {
        '1'
    } else if d == 2 {
        '2'
    } else if d == 3 {
        '3'
    } else if d == 4 {
        '4'
    } else if d == 5 {
        '5'
    } else if d == 6 {
        '6'
    } else if d == 7 {
        '7'
    } else if d == 8 {
        '8'
    } else if d == 9 {
        '9'
    } else if d == 10 {
        'a'
    } else if d == 11 {
        'b'
    } else if d == 12 {
        'c'
    } else if d == 13 {
        'd'
    } else if d == 14 {
        'e'
    } else {
        'f'
    }
}

fn digit_text(d: u64) -> (text: &'static str)
    requires
        d < 16,
    ensures
        text@ == seq![digit(d as int)],
{
    proof {
        reveal_strlit("0");
        reveal_strlit("1");
        reveal_strlit("2");
        reveal_strlit("3");
        reveal_strlit("4");
        reveal_strlit("5");
        reveal_strlit("6");
        reveal_strlit("7");
        reveal_strlit("8");
        reveal_strlit("9");
        reveal_strlit("a");
        reveal_strlit("b");
        reveal_strlit("c");
        reveal_strlit("d");
        reveal_strlit("e");
        reveal_strlit("f");
    }
    let text: &'static str = if d == 0 {
        "0"
    } else if d == 1 {
        "1"
    } else if d == 2 {
        "2"
    } else if d == 3 {
        "3"
    } else if d == 4 {
        "4"
    } else if d == 5 {
        "5"
    } else if d == 6 {
        "6"
    } else if d == 7 {
        "7"
    } else if d == 8 {
        "8"
    } else if d == 9 {
        "9"
    } else if d == 10 {
        "a"
    } else if d == 11 {
        "b"
    } else if d == 12 {
        "c"
    } else if d == 13 {
        "d"
    } else if d == 14 {
        "e"
    } else {
        "f"
    };
    assert(text@ =~= seq![digit(d as int)]);
    text
}

/// A number in decimal, without leading zeros.
pub open spec fn decimal(n: nat) -> Seq<char>
    decreases n,
{
    if n < 10 {
        seq![digit(n as int)]
    } else {
        decimal(n / 10).push(digit((n % 10) as int))
    }
}

/// A number that may be negative.
pub open spec fn signed(n: int) -> Seq<char> {
    if n < 0 {
        "-"@ + decimal((-n) as nat)
    } else {
        decimal(n as nat)
    }
}

/// Bytes, two digits each.
pub open spec fn hex(bytes: Seq<u8>) -> Seq<char>
    decreases bytes.len(),
{
    if bytes.len() == 0 {
        Seq::empty()
    } else {
        hex(bytes.drop_last()).push(digit(bytes.last() as int / 16)).push(
            digit(bytes.last() as int % 16),
        )
    }
}

pub open spec fn truth(b: bool) -> Seq<char> {
    if b {
        "true"@
    } else {
        "false"@
    }
}

/// The parts in order, with commas between them.
pub open spec fn joined(parts: Seq<Seq<char>>) -> Seq<char>
    decreases parts.len(),
{
    if parts.len() == 0 {
        Seq::empty()
    } else if parts.len() == 1 {
        parts[0]
    } else {
        joined(parts.drop_last()) + ","@ + parts.last()
    }
}

/// Two numbers written alike are the same number.
pub proof fn law_numbers_read_back(a: nat, b: nat)
    requires
        decimal(a) == decimal(b),
    ensures
        a == b,
    decreases a,
{
    let (x, y) = (decimal(a), decimal(b));
    assert(x.len() == y.len());
    assert(x.last() == y.last());
    if a >= 10 && b >= 10 {
        assert(x.drop_last() =~= decimal(a / 10));
        assert(y.drop_last() =~= decimal(b / 10));
        law_numbers_read_back(a / 10, b / 10);
    } else if a >= 10 {
        assert(decimal(a / 10).len() > 0) by {
            lemma_decimal_is_written(a / 10);
        }
    } else if b >= 10 {
        assert(decimal(b / 10).len() > 0) by {
            lemma_decimal_is_written(b / 10);
        }
    }
}

proof fn lemma_decimal_is_written(n: nat)
    ensures
        decimal(n).len() > 0,
    decreases n,
{
    if n >= 10 {
        lemma_decimal_is_written(n / 10);
    }
}

/// Bytes written alike are the same bytes, and every byte takes two digits.
pub proof fn law_bytes_read_back(a: Seq<u8>, b: Seq<u8>)
    ensures
        hex(a).len() == 2 * a.len(),
        hex(a) == hex(b) ==> a == b,
    decreases a.len(),
{
    if a.len() > 0 {
        law_bytes_read_back(a.drop_last(), a.drop_last());
    }
    lemma_hex_is_twice_as_long(b);
    if a.len() > 0 && b.len() > 0 && hex(a) == hex(b) {
        let (x, y) = (hex(a), hex(b));
        let n = x.len() as int;
        assert(x[n - 1] == y[n - 1] && x[n - 2] == y[n - 2]);
        assert(x[n - 1] == digit(a.last() as int % 16));
        assert(x[n - 2] == digit(a.last() as int / 16));
        assert(x.take(n - 2) =~= hex(a.drop_last()));
        assert(y.take(n - 2) =~= hex(b.drop_last()));
        law_bytes_read_back(a.drop_last(), b.drop_last());
        assert(a.last() == b.last());
        assert(a =~= a.drop_last().push(a.last()));
        assert(b =~= b.drop_last().push(b.last()));
    } else if hex(a) == hex(b) {
        assert(a =~= b);
    }
}

proof fn lemma_hex_is_twice_as_long(a: Seq<u8>)
    ensures
        hex(a).len() == 2 * a.len(),
    decreases a.len(),
{
    if a.len() > 0 {
        lemma_hex_is_twice_as_long(a.drop_last());
    }
}

fn write_number(out: &mut String, n: u64)
    ensures
        final(out)@ == old(out)@ + decimal(n as nat),
    decreases n,
{
    if n >= 10 {
        write_number(out, n / 10);
    }
    out.append(digit_text(n % 10));
    assert(out@ =~= old(out)@ + decimal(n as nat));
}

fn write_signed(out: &mut String, n: i64)
    ensures
        final(out)@ == old(out)@ + signed(n as int),
{
    if n < 0 {
        out.append("-");
        let size: u64 = if n == i64::MIN {
            0x8000_0000_0000_0000
        } else {
            (-n) as u64
        };
        write_number(out, size);
        assert(out@ =~= old(out)@ + signed(n as int));
    } else {
        write_number(out, n as u64);
    }
}

fn write_hex(out: &mut String, bytes: &[u8])
    ensures
        final(out)@ == old(out)@ + hex(bytes@),
{
    let mut i: usize = 0;
    assert(bytes@.take(0) =~= Seq::<u8>::empty());
    assert(out@ =~= old(out)@ + hex(bytes@.take(0)));
    while i < bytes.len()
        invariant
            i <= bytes@.len(),
            out@ == old(out)@ + hex(bytes@.take(i as int)),
        decreases bytes@.len() - i,
    {
        let b: u8 = bytes[i];
        out.append(digit_text((b / 16) as u64));
        out.append(digit_text((b % 16) as u64));
        proof {
            let now = bytes@.take(i + 1);
            assert(now.drop_last() =~= bytes@.take(i as int));
            assert(now.last() == b);
            assert(out@ =~= old(out)@ + hex(now));
        }
        i += 1;
    }
    assert(bytes@.take(i as int) =~= bytes@);
}

fn write_truth(out: &mut String, b: bool)
    ensures
        final(out)@ == old(out)@ + truth(b),
{
    if b {
        out.append("true");
    } else {
        out.append("false");
    }
}

/// The texts of a list of strings.
pub open spec fn texts(list: Seq<String>) -> Seq<Seq<char>> {
    list.map_values(|s: String| s@)
}

fn write_joined(out: &mut String, parts: &Vec<String>)
    ensures
        final(out)@ == old(out)@ + joined(texts(parts@)),
{
    let mut i: usize = 0;
    assert(texts(parts@).take(0) =~= Seq::<Seq<char>>::empty());
    assert(out@ =~= old(out)@ + joined(texts(parts@).take(0)));
    while i < parts.len()
        invariant
            i <= parts@.len(),
            out@ == old(out)@ + joined(texts(parts@).take(i as int)),
        decreases parts@.len() - i,
    {
        if i > 0 {
            out.append(",");
        }
        out.append(parts[i].as_str());
        proof {
            let now = texts(parts@).take(i + 1);
            assert(now.drop_last() =~= texts(parts@).take(i as int));
            assert(now.last() == parts@[i as int]@);
            assert(out@ =~= old(out)@ + joined(now));
        }
        i += 1;
    }
    assert(texts(parts@).take(i as int) =~= texts(parts@));
}

/// The action of a change of a stack.
pub open spec fn change_text(c: Change) -> Seq<char> {
    match c {
        Change::Admitted(id) => "{\"action\":\"admitted\",\"id\":\""@ + hex(id.0@) + "\"}"@,
        Change::Rejected { id, cost, spare } => "{\"action\":\"rejected\",\"id\":\""@ + hex(id.0@)
            + "\",\"cost\":"@ + decimal(cost as nat) + ",\"spare\":"@ + decimal(spare as nat)
            + "}"@,
        Change::Removed { id, reason } => "{\"action\":\"removed\",\"id\":\""@ + hex(id.0@)
            + "\",\"reason\":\""@ + removal_text(reason) + "\"}"@,
        Change::FadeFinished(id) => "{\"action\":\"fade_finished\",\"id\":\""@ + hex(id.0@)
            + "\"}"@,
    }
}

pub open spec fn removal_text(r: Removal) -> Seq<char> {
    match r {
        Removal::Expired => "expired"@,
        Removal::Popped => "popped"@,
        Removal::Superseded => "superseded"@,
    }
}

pub fn render_change(c: &Change) -> (s: String)
    ensures
        s@ == change_text(*c),
{
    match c {
        Change::Admitted(id) => {
            let mut s = "{\"action\":\"admitted\",\"id\":\"".to_owned();
            write_hex(&mut s, &id.0);
            s.append("\"}");
            s
        },
        Change::Rejected { id, cost, spare } => {
            let mut s = "{\"action\":\"rejected\",\"id\":\"".to_owned();
            write_hex(&mut s, &id.0);
            s.append("\",\"cost\":");
            write_number(&mut s, *cost as u64);
            s.append(",\"spare\":");
            write_number(&mut s, *spare as u64);
            s.append("}");
            s
        },
        Change::Removed { id, reason } => {
            let mut s = "{\"action\":\"removed\",\"id\":\"".to_owned();
            write_hex(&mut s, &id.0);
            s.append("\",\"reason\":\"");
            s.append(
                match reason {
                    Removal::Expired => "expired",
                    Removal::Popped => "popped",
                    Removal::Superseded => "superseded",
                },
            );
            s.append("\"}");
            s
        },
        Change::FadeFinished(id) => {
            let mut s = "{\"action\":\"fade_finished\",\"id\":\"".to_owned();
            write_hex(&mut s, &id.0);
            s.append("\"}");
            s
        },
    }
}

/// The action of a refused push.
pub open spec fn push_error_text(e: PushError) -> Seq<char> {
    match e {
        PushError::NoExpiry {
            priority,
        } => "{\"action\":\"refused\",\"reason\":\"no_expiry\",\"priority\":"@ + decimal(
            priority as nat,
        ) + "}"@,
        PushError::AlreadyExpired {
            expires_at_us,
        } => "{\"action\":\"refused\",\"reason\":\"already_expired\",\"expires_at_us\":"@
            + decimal(expires_at_us as nat) + "}"@,
        PushError::NoRoom => "{\"action\":\"refused\",\"reason\":\"no_room\"}"@,
    }
}

pub fn render_push_error(e: &PushError) -> (s: String)
    ensures
        s@ == push_error_text(*e),
{
    match e {
        PushError::NoExpiry { priority } => {
            let mut s =
                "{\"action\":\"refused\",\"reason\":\"no_expiry\",\"priority\":".to_owned();
            write_number(&mut s, *priority as u64);
            s.append("}");
            s
        },
        PushError::AlreadyExpired { expires_at_us } => {
            let mut s =
                "{\"action\":\"refused\",\"reason\":\"already_expired\",\"expires_at_us\":".to_owned();
            write_number(&mut s, *expires_at_us);
            s.append("}");
            s
        },
        PushError::NoRoom => "{\"action\":\"refused\",\"reason\":\"no_room\"}".to_owned(),
    }
}

pub open spec fn refused_text(r: Refused) -> Seq<char> {
    match r {
        Refused::Push(e) => push_error_text(e),
        Refused::NotFound => "{\"action\":\"refused\",\"reason\":\"not_found\"}"@,
    }
}

/// A refusal is the answer to a push, so it comes after whatever the push managed
/// to change.
pub open spec fn sources_actions(o: SourcesOutcome) -> Seq<Seq<char>> {
    let changes = o.changes.map_values(|c: Change| change_text(c));
    match o.refused {
        Some(r) => changes.push(refused_text(r)),
        None => changes,
    }
}

fn change_parts(changes: &Vec<Change>) -> (parts: Vec<String>)
    ensures
        texts(parts@) == changes@.map_values(|c: Change| change_text(c)),
{
    let mut parts: Vec<String> = Vec::new();
    let mut i: usize = 0;
    while i < changes.len()
        invariant
            i <= changes@.len(),
            parts@.len() == i,
            forall|k: int| 0 <= k < i ==> (#[trigger] parts@[k])@ == change_text(changes@[k]),
        decreases changes@.len() - i,
    {
        parts.push(render_change(&changes[i]));
        i += 1;
    }
    assert(texts(parts@) =~= changes@.map_values(|c: Change| change_text(c)));
    parts
}

fn sources_parts(answer: &SourcesAnswer) -> (parts: Vec<String>)
    ensures
        texts(parts@) == sources_actions(answer@),
{
    let mut parts = change_parts(&answer.changes);
    match &answer.refused {
        Some(r) => {
            let text = match r {
                Refused::Push(e) => render_push_error(e),
                Refused::NotFound => {
                    "{\"action\":\"refused\",\"reason\":\"not_found\"}".to_owned()
                },
            };
            let ghost before = texts(parts@);
            parts.push(text);
            assert(texts(parts@) =~= before.push(text@));
        },
        None => {},
    }
    parts
}

/// What became of a claim.
pub open spec fn claim_text(outcome: ClaimOutcome) -> Seq<char> {
    match outcome {
        ClaimOutcome::Taken => "{\"action\":\"claimed\",\"outcome\":\"taken\"}"@,
        ClaimOutcome::Renewed => "{\"action\":\"claimed\",\"outcome\":\"renewed\"}"@,
        ClaimOutcome::Preempted {
            previous,
        } => "{\"action\":\"claimed\",\"outcome\":\"preempted\",\"previous\":\""@ + hex(
            previous@,
        ) + "\"}"@,
        ClaimOutcome::Refused {
            holder,
        } => "{\"action\":\"claimed\",\"outcome\":\"refused\",\"holder\":\""@ + hex(holder@)
            + "\"}"@,
    }
}

fn render_claim(outcome: &ClaimOutcome) -> (s: String)
    ensures
        s@ == claim_text(*outcome),
{
    match outcome {
        ClaimOutcome::Taken => "{\"action\":\"claimed\",\"outcome\":\"taken\"}".to_owned(),
        ClaimOutcome::Renewed => "{\"action\":\"claimed\",\"outcome\":\"renewed\"}".to_owned(),
        ClaimOutcome::Preempted { previous } => {
            let mut s =
                "{\"action\":\"claimed\",\"outcome\":\"preempted\",\"previous\":\"".to_owned();
            write_hex(&mut s, previous);
            s.append("\"}");
            s
        },
        ClaimOutcome::Refused { holder } => {
            let mut s =
                "{\"action\":\"claimed\",\"outcome\":\"refused\",\"holder\":\"".to_owned();
            write_hex(&mut s, holder);
            s.append("\"}");
            s
        },
    }
}

pub open spec fn channel_actions(answer: ChannelAnswer) -> Seq<Seq<char>> {
    match answer {
        ChannelAnswer::Claimed(outcome) => seq![claim_text(outcome)],
        ChannelAnswer::Released => seq!["{\"action\":\"released\"}"@],
        ChannelAnswer::ReleaseIgnored => seq!["{\"action\":\"release_ignored\"}"@],
        ChannelAnswer::Published => seq!["{\"action\":\"published\"}"@],
        ChannelAnswer::Dropped => seq!["{\"action\":\"dropped\"}"@],
        ChannelAnswer::LeaseLapsed(producer) => seq![
            "{\"action\":\"lease_lapsed\",\"producer\":\""@ + hex(producer@) + "\"}"@,
        ],
        ChannelAnswer::Value { value, stale } => seq![
            "{\"action\":\"value\",\"value\":"@ + signed(value.0 as int) + ",\"stale\":"@ + truth(
                stale,
            ) + "}"@,
        ],
        ChannelAnswer::Quiet => Seq::empty(),
    }
}

fn channel_parts(answer: &ChannelAnswer) -> (parts: Vec<String>)
    ensures
        texts(parts@) == channel_actions(*answer),
{
    let mut parts: Vec<String> = Vec::new();
    let text = match answer {
        ChannelAnswer::Claimed(outcome) => render_claim(outcome),
        ChannelAnswer::Released => "{\"action\":\"released\"}".to_owned(),
        ChannelAnswer::ReleaseIgnored => "{\"action\":\"release_ignored\"}".to_owned(),
        ChannelAnswer::Published => "{\"action\":\"published\"}".to_owned(),
        ChannelAnswer::Dropped => "{\"action\":\"dropped\"}".to_owned(),
        ChannelAnswer::LeaseLapsed(producer) => {
            let mut s = "{\"action\":\"lease_lapsed\",\"producer\":\"".to_owned();
            write_hex(&mut s, producer);
            s.append("\"}");
            s
        },
        ChannelAnswer::Value { value, stale } => {
            let mut s = "{\"action\":\"value\",\"value\":".to_owned();
            write_signed(&mut s, value.0 as i64);
            s.append(",\"stale\":");
            write_truth(&mut s, *stale);
            s.append("}");
            s
        },
        ChannelAnswer::Quiet => {
            assert(texts(parts@) =~= Seq::<Seq<char>>::empty());
            return parts;
        },
    };
    parts.push(text);
    assert(texts(parts@) =~= seq![text@]);
    parts
}

/// The action of a binding that cannot be used.
pub open spec fn binding_error_text(e: BindingError) -> Seq<char> {
    match e {
        BindingError::CeilingTooHigh {
            asked,
            max,
        } => "{\"action\":\"bad_binding\",\"reason\":\"ceiling_too_high\",\"asked\":"@ + decimal(
            asked as nat,
        ) + ",\"max\":"@ + decimal(max as nat) + "}"@,
        BindingError::EmptyRange => "{\"action\":\"bad_binding\",\"reason\":\"empty_range\"}"@,
    }
}

pub fn render_binding_error(e: &BindingError) -> (s: String)
    ensures
        s@ == binding_error_text(*e),
{
    match e {
        BindingError::CeilingTooHigh { asked, max } => {
            let mut s =
                "{\"action\":\"bad_binding\",\"reason\":\"ceiling_too_high\",\"asked\":".to_owned();
            write_number(&mut s, *asked as u64);
            s.append(",\"max\":");
            write_number(&mut s, *max as u64);
            s.append("}");
            s
        },
        BindingError::EmptyRange => {
            "{\"action\":\"bad_binding\",\"reason\":\"empty_range\"}".to_owned()
        },
    }
}

/// A time, or nothing.
pub open spec fn optional(n: Option<u64>) -> Seq<char> {
    match n {
        Some(n) => decimal(n as nat),
        None => "null"@,
    }
}

pub open spec fn gateway_text(answer: GatewayAnswer) -> Seq<char> {
    match answer {
        GatewayAnswer::Admitted(a) => "{\"action\":\"admitted\",\"pixel_from\":"@ + decimal(
            a.pixels.0 as nat,
        ) + ",\"pixel_to\":"@ + decimal(a.pixels.1 as nat) + ",\"clipped\":"@ + decimal(
            a.clipped as nat,
        ) + ",\"priority\":"@ + decimal(a.source.priority as nat) + ",\"priority_clamped\":"@
            + truth(a.priority_clamped) + ",\"expires_at_us\":"@ + optional(a.source.expires_at_us)
            + "}"@,
        GatewayAnswer::Refused(
            Refusal::OutsideBinding,
        ) => "{\"action\":\"refused\",\"reason\":\"outside_binding\"}"@,
        GatewayAnswer::Refused(Refusal::BadBinding(e)) => binding_error_text(e),
        GatewayAnswer::Program(taken) => "{\"action\":\"program_accepted\",\"accepted\":"@ + truth(
            taken,
        ) + "}"@,
        GatewayAnswer::Ceiling(max) => "{\"action\":\"max_priority\",\"max\":"@ + decimal(
            max as nat,
        ) + "}"@,
    }
}

fn render_gateway(answer: &GatewayAnswer) -> (s: String)
    ensures
        s@ == gateway_text(*answer),
{
    match answer {
        GatewayAnswer::Admitted(a) => {
            let mut s = "{\"action\":\"admitted\",\"pixel_from\":".to_owned();
            write_number(&mut s, a.pixels.0 as u64);
            s.append(",\"pixel_to\":");
            write_number(&mut s, a.pixels.1 as u64);
            s.append(",\"clipped\":");
            write_number(&mut s, a.clipped as u64);
            s.append(",\"priority\":");
            write_number(&mut s, a.source.priority as u64);
            s.append(",\"priority_clamped\":");
            write_truth(&mut s, a.priority_clamped);
            s.append(",\"expires_at_us\":");
            match a.source.expires_at_us {
                Some(n) => write_number(&mut s, n),
                None => s.append("null"),
            }
            s.append("}");
            s
        },
        GatewayAnswer::Refused(Refusal::OutsideBinding) => {
            "{\"action\":\"refused\",\"reason\":\"outside_binding\"}".to_owned()
        },
        GatewayAnswer::Refused(Refusal::BadBinding(e)) => render_binding_error(e),
        GatewayAnswer::Program(taken) => {
            let mut s = "{\"action\":\"program_accepted\",\"accepted\":".to_owned();
            write_truth(&mut s, *taken);
            s.append("}");
            s
        },
        GatewayAnswer::Ceiling(max) => {
            let mut s = "{\"action\":\"max_priority\",\"max\":".to_owned();
            write_number(&mut s, *max as u64);
            s.append("}");
            s
        },
    }
}

pub open spec fn zone_text(answer: ZoneAnswer) -> Seq<char> {
    match answer {
        ZoneAnswer::Selected(leds) => "{\"action\":\"selected\",\"leds\":["@ + joined(
            leds@.map_values(|n: u16| decimal(n as nat)),
        ) + "]}"@,
        ZoneAnswer::ExcludedForMapping(
            excluded,
        ) => "{\"action\":\"excluded_for_mapping\",\"excluded\":"@ + truth(excluded) + "}"@,
    }
}

fn render_zone(answer: &ZoneAnswer) -> (s: String)
    ensures
        s@ == zone_text(*answer),
{
    match answer {
        ZoneAnswer::Selected(leds) => {
            let mut parts: Vec<String> = Vec::new();
            let mut i: usize = 0;
            while i < leds.len()
                invariant
                    i <= leds@.len(),
                    parts@.len() == i,
                    forall|k: int|
                        0 <= k < i ==> (#[trigger] parts@[k])@ == decimal(leds@[k] as nat),
                decreases leds@.len() - i,
            {
                let mut n = String::new();
                write_number(&mut n, leds[i] as u64);
                assert(n@ =~= decimal(leds@[i as int] as nat));
                parts.push(n);
                i += 1;
            }
            assert(texts(parts@) =~= leds@.map_values(|n: u16| decimal(n as nat)));
            let mut s = "{\"action\":\"selected\",\"leds\":[".to_owned();
            write_joined(&mut s, &parts);
            s.append("]}");
            s
        },
        ZoneAnswer::ExcludedForMapping(excluded) => {
            let mut s = "{\"action\":\"excluded_for_mapping\",\"excluded\":".to_owned();
            write_truth(&mut s, *excluded);
            s.append("}");
            s
        },
    }
}

pub open spec fn digest_text(e: DigestEntry) -> Seq<char> {
    "{\"id\":\""@ + hex(e.id.0@) + "\",\"hlc\":"@ + decimal(e.hlc.0 as nat) + "}"@
}

pub open spec fn quoted_id(id: Uuid) -> Seq<char> {
    "\""@ + hex(id.0@) + "\""@
}

pub open spec fn records_text(answer: RecordsAnswer) -> Seq<char> {
    match answer {
        RecordsAnswer::Accepted => "{\"action\":\"accepted\"}"@,
        RecordsAnswer::Rejected(reason) => "{\"action\":\"rejected\",\"reason\":\""@ + named_reason(
            reason,
        ) + "\"}"@,
        RecordsAnswer::Digest(entries) => "{\"action\":\"digest\",\"entries\":["@ + joined(
            entries@.map_values(|e: DigestEntry| digest_text(e)),
        ) + "]}"@,
        RecordsAnswer::Wanted(ids) => "{\"action\":\"wanted\",\"ids\":["@ + joined(
            ids@.map_values(|id: Uuid| quoted_id(id)),
        ) + "]}"@,
    }
}

fn render_records(answer: &RecordsAnswer) -> (s: String)
    ensures
        s@ == records_text(*answer),
{
    match answer {
        RecordsAnswer::Accepted => "{\"action\":\"accepted\"}".to_owned(),
        RecordsAnswer::Rejected(reason) => {
            let mut s = "{\"action\":\"rejected\",\"reason\":\"".to_owned();
            s.append(reject_name(reason));
            s.append("\"}");
            s
        },
        RecordsAnswer::Digest(entries) => {
            let mut parts: Vec<String> = Vec::new();
            let mut i: usize = 0;
            while i < entries.len()
                invariant
                    i <= entries@.len(),
                    parts@.len() == i,
                    forall|k: int|
                        0 <= k < i ==> (#[trigger] parts@[k])@ == digest_text(entries@[k]),
                decreases entries@.len() - i,
            {
                let mut e = "{\"id\":\"".to_owned();
                write_hex(&mut e, &entries[i].id.0);
                e.append("\",\"hlc\":");
                write_number(&mut e, entries[i].hlc.0);
                e.append("}");
                parts.push(e);
                i += 1;
            }
            assert(texts(parts@) =~= entries@.map_values(|e: DigestEntry| digest_text(e)));
            let mut s = "{\"action\":\"digest\",\"entries\":[".to_owned();
            write_joined(&mut s, &parts);
            s.append("]}");
            s
        },
        RecordsAnswer::Wanted(ids) => {
            let mut parts: Vec<String> = Vec::new();
            let mut i: usize = 0;
            while i < ids.len()
                invariant
                    i <= ids@.len(),
                    parts@.len() == i,
                    forall|k: int| 0 <= k < i ==> (#[trigger] parts@[k])@ == quoted_id(ids@[k]),
                decreases ids@.len() - i,
            {
                let mut e = "\"".to_owned();
                write_hex(&mut e, &ids[i].0);
                e.append("\"");
                parts.push(e);
                i += 1;
            }
            assert(texts(parts@) =~= ids@.map_values(|id: Uuid| quoted_id(id)));
            let mut s = "{\"action\":\"wanted\",\"ids\":[".to_owned();
            write_joined(&mut s, &parts);
            s.append("]}");
            s
        },
    }
}

pub open spec fn pixel_text(p: Rgb) -> Seq<char> {
    "["@ + signed(p.r.0 as int) + ","@ + signed(p.g.0 as int) + ","@ + signed(p.b.0 as int) + "]"@
}

pub open spec fn faulted_text(source: Uuid) -> Seq<char> {
    "{\"action\":\"faulted\",\"source\":\""@ + hex(source.0@) + "\"}"@
}

/// The frame comes first, then a note for every source that faulted in it.
pub open spec fn render_actions(answer: RenderAnswer) -> Seq<Seq<char>> {
    match answer {
        RenderAnswer::Bound(a) => sources_actions(a@),
        RenderAnswer::Pixels { rgb, faulted } => seq![
            "{\"action\":\"pixels\",\"rgb\":["@ + joined(
                rgb@.map_values(|p: Rgb| pixel_text(p)),
            ) + "]}"@,
        ] + faulted@.map_values(|source: Uuid| faulted_text(source)),
        RenderAnswer::Advanced(changes) => changes@.map_values(|c: Change| change_text(c)),
    }
}

fn render_pixels(rgb: &Vec<Rgb>) -> (s: String)
    ensures
        s@ == "{\"action\":\"pixels\",\"rgb\":["@ + joined(
            rgb@.map_values(|p: Rgb| pixel_text(p)),
        ) + "]}"@,
{
    let mut parts: Vec<String> = Vec::new();
    let mut i: usize = 0;
    while i < rgb.len()
        invariant
            i <= rgb@.len(),
            parts@.len() == i,
            forall|k: int| 0 <= k < i ==> (#[trigger] parts@[k])@ == pixel_text(rgb@[k]),
        decreases rgb@.len() - i,
    {
        let p = rgb[i];
        let mut e = "[".to_owned();
        write_signed(&mut e, p.r.0 as i64);
        e.append(",");
        write_signed(&mut e, p.g.0 as i64);
        e.append(",");
        write_signed(&mut e, p.b.0 as i64);
        e.append("]");
        parts.push(e);
        i += 1;
    }
    assert(texts(parts@) =~= rgb@.map_values(|p: Rgb| pixel_text(p)));
    let mut s = "{\"action\":\"pixels\",\"rgb\":[".to_owned();
    write_joined(&mut s, &parts);
    s.append("]}");
    s
}

fn render_parts(answer: &RenderAnswer) -> (parts: Vec<String>)
    ensures
        texts(parts@) == render_actions(*answer),
{
    match answer {
        RenderAnswer::Bound(a) => sources_parts(a),
        RenderAnswer::Pixels { rgb, faulted } => {
            let frame = render_pixels(rgb);
            let ghost frame_text = frame@;
            let mut parts: Vec<String> = Vec::new();
            parts.push(frame);
            let mut i: usize = 0;
            while i < faulted.len()
                invariant
                    i <= faulted@.len(),
                    parts@.len() == i + 1,
                    parts@[0]@ == frame_text,
                    forall|k: int|
                        0 <= k < i ==> (#[trigger] parts@[k + 1])@ == faulted_text(faulted@[k]),
                decreases faulted@.len() - i,
            {
                let mut e = "{\"action\":\"faulted\",\"source\":\"".to_owned();
                write_hex(&mut e, &faulted[i].0);
                e.append("\"}");
                parts.push(e);
                i += 1;
            }
            proof {
                let told = render_actions(*answer);
                assert forall|k: int| 0 <= k < told.len() implies texts(parts@)[k] == told[k] by {
                    if k > 0 {
                        assert(parts@[(k - 1) + 1]@ == faulted_text(faulted@[k - 1]));
                    }
                }
                assert(texts(parts@) =~= told);
            }
            parts
        },
        RenderAnswer::Advanced(changes) => change_parts(changes),
    }
}

pub open spec fn role_text(role: Role) -> Seq<char> {
    match role {
        Role::Leader => "leader"@,
        Role::Follower => "follower"@,
        Role::Candidate => "candidate"@,
    }
}

pub open spec fn destination_text(to: Destination) -> Seq<char> {
    match to {
        Destination::Mesh => "mesh"@,
        Destination::Peer(prefix) => hex(prefix@),
    }
}

/// Whether this is how an action of a node reads. `encode` lays datagrams out in
/// bytes.
pub open spec fn action_reads<E: Fn(&Datagram) -> Vec<u8>>(
    encode: E,
    action: Action,
    text: Seq<char>,
) -> bool {
    match action {
        Action::SetTimer { in_us } => text == "{\"action\":\"set_timer\",\"in_us\":"@ + decimal(
            in_us as nat,
        ) + "}"@,
        Action::Send { to, datagram, .. } => exists|bytes: Vec<u8>|
            {
                &&& #[trigger] call_ensures(encode, (&datagram,), bytes)
                &&& text == "{\"action\":\"send\",\"to\":\""@ + destination_text(to)
                    + "\",\"datagram\":\""@ + hex(bytes@) + "\"}"@
            },
        Action::DisciplineClock {
            offset_us,
        } => text == "{\"action\":\"discipline\",\"offset_us\":"@ + signed(offset_us as int)
            + "}"@,
        Action::RoleChanged { role, epoch } => text == "{\"action\":\"role\",\"role\":\""@
            + role_text(role) + "\",\"epoch\":"@ + decimal(epoch as nat) + "}"@,
        Action::SyncLost => text == "{\"action\":\"sync_lost\"}"@,
        Action::SyncAcquired => text == "{\"action\":\"sync_acquired\"}"@,
    }
}

pub fn render_node_action<E: Fn(&Datagram) -> Vec<u8>>(encode: &E, action: &Action) -> (s: String)
    requires
        forall|d: &Datagram| #[trigger] call_requires(*encode, (d,)),
    ensures
        action_reads(*encode, *action, s@),
{
    match action {
        Action::SetTimer { in_us } => {
            let mut s = "{\"action\":\"set_timer\",\"in_us\":".to_owned();
            write_number(&mut s, *in_us);
            s.append("}");
            s
        },
        Action::Send { to, datagram, .. } => {
            let mut s = "{\"action\":\"send\",\"to\":\"".to_owned();
            match to {
                Destination::Mesh => s.append("mesh"),
                Destination::Peer(prefix) => write_hex(&mut s, prefix),
            }
            s.append("\",\"datagram\":\"");
            let bytes = encode(datagram);
            write_hex(&mut s, bytes.as_slice());
            s.append("\"}");
            assert(call_ensures(*encode, (datagram,), bytes));
            s
        },
        Action::DisciplineClock { offset_us } => {
            let mut s = "{\"action\":\"discipline\",\"offset_us\":".to_owned();
            write_signed(&mut s, *offset_us);
            s.append("}");
            s
        },
        Action::RoleChanged { role, epoch } => {
            let mut s = "{\"action\":\"role\",\"role\":\"".to_owned();
            s.append(
                match role {
                    Role::Leader => "leader",
                    Role::Follower => "follower",
                    Role::Candidate => "candidate",
                },
            );
            s.append("\",\"epoch\":");
            write_number(&mut s, *epoch as u64);
            s.append("}");
            s
        },
        Action::SyncLost => "{\"action\":\"sync_lost\"}".to_owned(),
        Action::SyncAcquired => "{\"action\":\"sync_acquired\"}".to_owned(),
    }
}

/// Whether these are the actions of an answer.
pub open spec fn reads<E: Fn(&Datagram) -> Vec<u8>>(
    encode: E,
    answer: Answer,
    parts: Seq<Seq<char>>,
) -> bool {
    match answer {
        Answer::Node(actions) => {
            &&& parts.len() == actions@.len()
            &&& forall|i: int|
                0 <= i < parts.len() ==> action_reads(encode, actions@[i], #[trigger] parts[i])
        },
        Answer::Sources(a) => parts == sources_actions(a@),
        Answer::Channel(a) => parts == channel_actions(a),
        Answer::Gateway(a) => parts == seq![gateway_text(a)],
        Answer::Zone(a) => parts == seq![zone_text(a)],
        Answer::Records(a) => parts == seq![records_text(a)],
        Answer::Render(a) => parts == render_actions(a),
    }
}

/// The line that carries some actions.
pub open spec fn line_of(parts: Seq<Seq<char>>) -> Seq<char> {
    "ok {\"actions\":["@ + joined(parts) + "]}"@
}

/// Whether this is the line of an answer.
pub open spec fn replies<E: Fn(&Datagram) -> Vec<u8>>(
    encode: E,
    answer: Answer,
    line: Seq<char>,
) -> bool {
    exists|parts: Seq<Seq<char>>| #[trigger] reads(encode, answer, parts) && line == line_of(parts)
}

fn one(text: String) -> (parts: Vec<String>)
    ensures
        texts(parts@) == seq![text@],
{
    let mut parts: Vec<String> = Vec::new();
    let ghost said = text@;
    parts.push(text);
    assert(texts(parts@) =~= seq![said]);
    parts
}

fn node_parts<E: Fn(&Datagram) -> Vec<u8>>(encode: &E, actions: &Vec<Action>) -> (parts: Vec<
    String,
>)
    requires
        forall|d: &Datagram| #[trigger] call_requires(*encode, (d,)),
    ensures
        parts@.len() == actions@.len(),
        forall|i: int|
            0 <= i < parts@.len() ==> action_reads(*encode, actions@[i], (#[trigger] parts@[i])@),
{
    let mut parts: Vec<String> = Vec::new();
    let mut i: usize = 0;
    while i < actions.len()
        invariant
            forall|d: &Datagram| #[trigger] call_requires(*encode, (d,)),
            i <= actions@.len(),
            parts@.len() == i,
            forall|k: int|
                0 <= k < i ==> action_reads(*encode, actions@[k], (#[trigger] parts@[k])@),
        decreases actions@.len() - i,
    {
        parts.push(render_node_action(encode, &actions[i]));
        i += 1;
    }
    parts
}

/// An answer as a line.
pub fn reply<E: Fn(&Datagram) -> Vec<u8>>(encode: &E, answer: &Answer) -> (line: String)
    requires
        forall|d: &Datagram| #[trigger] call_requires(*encode, (d,)),
    ensures
        replies(*encode, *answer, line@),
{
    let parts = match answer {
        Answer::Node(actions) => node_parts(encode, actions),
        Answer::Sources(a) => sources_parts(a),
        Answer::Channel(a) => channel_parts(a),
        Answer::Gateway(a) => one(render_gateway(a)),
        Answer::Zone(a) => one(render_zone(a)),
        Answer::Records(a) => one(render_records(a)),
        Answer::Render(a) => render_parts(a),
    };
    let mut line = "ok {\"actions\":[".to_owned();
    write_joined(&mut line, &parts);
    line.append("]}");
    assert(reads(*encode, *answer, texts(parts@)));
    line
}

/// What a bench says of itself.
pub open spec fn greeting() -> Seq<char> {
    "ok {\"name\":\"lumen-device 0.1.0\",\"protocol\":2,\"kinds\":[\"behavioural\"]}"@
}

/// Whether a request is answered so, and does this to the machine.
pub open spec fn responds<
    M,
    P,
    U: Fn(Op, Q16, Q16, Q16) -> Q16,
    F: Fn(Option<M>, Step<P>) -> Ran<M>,
    L: Fn(&[u8]) -> Option<Loaded<P>>,
    D: Fn(&[u8]) -> Option<Datagram>,
    V: Fn(&[u8; 32], &[u8], &[u8; 64]) -> bool,
    X: Fn(&Uuid) -> ([u8; 4], [u8; 2]),
    E: Fn(&Datagram) -> Vec<u8>,
>(
    was: Machine<M>,
    now: Machine<M>,
    shell: Shell<U, F, L, D, V>,
    naming: X,
    encode: E,
    verb: Seq<char>,
    body: Json,
    r: Result<Seq<char>, Fault>,
) -> bool {
    if verb == "hello"@ {
        now == was && r == Ok::<Seq<char>, Fault>(greeting())
    } else if verb == "reset"@ {
        match r {
            Ok(line) => sets_up(naming, body, Ok(now)) && line == "ok {}"@,
            Err(e) => now == was && sets_up::<M, X>(naming, body, Err(e)),
        }
    } else if verb == "event"@ {
        match r {
            Ok(line) => exists|answer: Answer|
                {
                    &&& #[trigger] handles(was, now, shell, body, Ok(answer))
                    &&& replies(encode, answer, line)
                },
            Err(e) => handles(was, now, shell, body, Err(e)),
        }
    } else if verb == "decode"@ || verb == "encode"@ {
        now == was && r == Err::<Seq<char>, Fault>(Fault::NotOffered)
    } else {
        now == was && r == Err::<Seq<char>, Fault>(Fault::UnknownRequest)
    }
}

/// The plain data of a result.
pub open spec fn plain_line(r: Result<String, Fault>) -> Result<Seq<char>, Fault> {
    match r {
        Ok(line) => Ok(line@),
        Err(e) => Err(e),
    }
}

/// One request. Payloads by themselves are not a bench's to judge: a request to
/// decode or encode one is turned down.
pub fn respond<
    M,
    P: Copy,
    U: Fn(Op, Q16, Q16, Q16) -> Q16,
    F: Fn(Option<M>, Step<P>) -> Ran<M>,
    L: Fn(&[u8]) -> Option<Loaded<P>>,
    D: Fn(&[u8]) -> Option<Datagram>,
    V: Fn(&[u8; 32], &[u8], &[u8; 64]) -> bool,
    X: Fn(&Uuid) -> ([u8; 4], [u8; 2]),
    E: Fn(&Datagram) -> Vec<u8>,
>(
    machine: &mut Machine<M>,
    shell: &Shell<U, F, L, D, V>,
    naming: &X,
    encode: &E,
    verb: &String,
    body: &Json,
) -> (r: Result<String, Fault>)
    requires
        old(machine).wf(),
        is_shell(*shell),
        forall|id: &Uuid| #[trigger] call_requires(*naming, (id,)),
        forall|d: &Datagram| #[trigger] call_requires(*encode, (d,)),
    ensures
        final(machine).wf(),
        responds(
            *old(machine),
            *final(machine),
            *shell,
            *naming,
            *encode,
            verb@,
            *body,
            plain_line(r),
        ),
{
    if *verb == "hello".to_owned() {
        Ok(
            "ok {\"name\":\"lumen-device 0.1.0\",\"protocol\":2,\"kinds\":[\"behavioural\"]}".to_owned(),
        )
    } else if *verb == "reset".to_owned() {
        match reset(body, naming) {
            Ok(set_up) => {
                *machine = set_up;
                Ok("ok {}".to_owned())
            },
            Err(e) => Err(e),
        }
    } else if *verb == "event".to_owned() {
        match event(machine, shell, body) {
            Ok(answer) => Ok(reply(encode, &answer)),
            Err(e) => Err(e),
        }
    } else if *verb == "decode".to_owned() || *verb == "encode".to_owned() {
        Err(Fault::NotOffered)
    } else {
        Err(Fault::UnknownRequest)
    }
}

/// Numbers are written in tens, the last digit last, with a sign where they are below
/// zero; bytes as two digits of sixteen each, the higher first; and lists with a comma
/// between any two.
pub proof fn law_how_numbers_and_lists_are_written(
    n: nat,
    d: nat,
    bytes: Seq<u8>,
    b: u8,
    parts: Seq<Seq<char>>,
    last: Seq<char>,
)
    requires
        n > 0,
        d < 10,
    ensures
        decimal(d) == seq![digit(d as int)],
        decimal(n * 10 + d) == decimal(n).push(digit(d as int)),
        signed(n as int) == decimal(n),
        signed(-(n as int)) == "-"@ + decimal(n),
        hex(bytes.push(b)) == hex(bytes).push(digit(b as int / 16)).push(digit(b as int % 16)),
        hex(Seq::empty()).len() == 0,
        joined(Seq::empty()).len() == 0,
        joined(seq![last]) == last,
        parts.len() > 0 ==> joined(parts.push(last)) == joined(parts) + ","@ + last,
        truth(true) == "true"@,
        truth(false) == "false"@,
{
    assert(bytes.push(b).drop_last() =~= bytes);
    assert(parts.push(last).drop_last() =~= parts);
    assert((n * 10 + d) / 10 == n && (n * 10 + d) % 10 == d);
}

/// What a stack tells, as it is written: which source, what it costs and what was spare,
/// or why it left.
pub proof fn law_how_changes_are_written(id: Uuid, cost: u32, spare: u32)
    ensures
        change_text(Change::Admitted(id)) == "{\"action\":\"admitted\",\"id\":\""@ + hex(id.0@)
            + "\"}"@,
        change_text(Change::Rejected { id, cost, spare }) == "{\"action\":\"rejected\",\"id\":\""@
            + hex(id.0@) + "\",\"cost\":"@ + decimal(cost as nat) + ",\"spare\":"@ + decimal(
            spare as nat,
        ) + "}"@,
        change_text(Change::Removed { id, reason: Removal::Expired })
            == "{\"action\":\"removed\",\"id\":\""@ + hex(id.0@) + "\",\"reason\":\""@
            + "expired"@ + "\"}"@,
        change_text(Change::Removed { id, reason: Removal::Popped })
            == "{\"action\":\"removed\",\"id\":\""@ + hex(id.0@) + "\",\"reason\":\""@
            + "popped"@ + "\"}"@,
        change_text(Change::Removed { id, reason: Removal::Superseded })
            == "{\"action\":\"removed\",\"id\":\""@ + hex(id.0@) + "\",\"reason\":\""@
            + "superseded"@ + "\"}"@,
        change_text(Change::FadeFinished(id)) == "{\"action\":\"fade_finished\",\"id\":\""@ + hex(
            id.0@,
        ) + "\"}"@,
{
}

/// What a stack answers: its changes in their order, and then the refusal if there is one.
pub proof fn law_a_refusal_comes_last(outcome: SourcesOutcome, i: int)
    ensures
        ({
            let parts = sources_actions(outcome);
            let n = outcome.changes.len();
            &&& 0 <= i < n ==> parts[i] == change_text(outcome.changes[i])
            &&& outcome.refused is None ==> parts.len() == n
            &&& outcome.refused is Some ==> parts.len() == n + 1 && parts[n as int] == refused_text(
                outcome.refused->0,
            )
        }),
{
}

/// What a channel answers: who it was taken from or who refused, whose lease ran out, and
/// what it reads and whether that is stale.
pub proof fn law_how_a_channel_answers(producer: [u8; 4], value: Q16, stale: bool)
    ensures
        claim_text(ClaimOutcome::Taken) == "{\"action\":\"claimed\",\"outcome\":\"taken\"}"@,
        claim_text(ClaimOutcome::Renewed) == "{\"action\":\"claimed\",\"outcome\":\"renewed\"}"@,
        claim_text(ClaimOutcome::Preempted { previous: producer })
            == "{\"action\":\"claimed\",\"outcome\":\"preempted\",\"previous\":\""@ + hex(
            producer@,
        ) + "\"}"@,
        claim_text(ClaimOutcome::Refused { holder: producer })
            == "{\"action\":\"claimed\",\"outcome\":\"refused\",\"holder\":\""@ + hex(producer@)
            + "\"}"@,
        channel_actions(ChannelAnswer::Published) == seq!["{\"action\":\"published\"}"@],
        channel_actions(ChannelAnswer::Dropped) == seq!["{\"action\":\"dropped\"}"@],
        channel_actions(ChannelAnswer::Released) == seq!["{\"action\":\"released\"}"@],
        channel_actions(ChannelAnswer::ReleaseIgnored) == seq![
            "{\"action\":\"release_ignored\"}"@,
        ],
        channel_actions(ChannelAnswer::LeaseLapsed(producer)) == seq![
            "{\"action\":\"lease_lapsed\",\"producer\":\""@ + hex(producer@) + "\"}"@,
        ],
        channel_actions(ChannelAnswer::Value { value, stale }) == seq![
            "{\"action\":\"value\",\"value\":"@ + signed(value.0 as int) + ",\"stale\":"@ + truth(
                stale,
            ) + "}"@,
        ],
        channel_actions(ChannelAnswer::Quiet).len() == 0,
{
}

/// What a gateway answers: the pixels it let through, how many it dropped, at which
/// priority, whether that was lowered, and until when.
pub proof fn law_how_a_gateway_answers(a: Admitted, until: u64, asked: u8, max: u8)
    requires
        a.source.expires_at_us == Some(until),
    ensures
        ({
            let (from, to) = a.pixels;
            gateway_text(GatewayAnswer::Admitted(a)) == "{\"action\":\"admitted\",\"pixel_from\":"@
                + decimal(from as nat) + ",\"pixel_to\":"@ + decimal(to as nat)
                + ",\"clipped\":"@ + decimal(a.clipped as nat) + ",\"priority\":"@ + decimal(
                a.source.priority as nat,
            ) + ",\"priority_clamped\":"@ + truth(a.priority_clamped) + ",\"expires_at_us\":"@
                + decimal(until as nat) + "}"@
        }),
        binding_error_text(BindingError::CeilingTooHigh { asked, max })
            == "{\"action\":\"bad_binding\",\"reason\":\"ceiling_too_high\",\"asked\":"@ + decimal(
            asked as nat,
        ) + ",\"max\":"@ + decimal(max as nat) + "}"@,
{
}

/// A frame is written as its pixels in their order, red, green and blue of each, and then
/// each source that faulted.
pub proof fn law_how_a_frame_is_written(p: Rgb, rgb: Vec<Rgb>, faulted: Vec<Uuid>, i: int)
    ensures
        pixel_text(p) == "["@ + signed(p.r.0 as int) + ","@ + signed(p.g.0 as int) + ","@ + signed(
            p.b.0 as int,
        ) + "]"@,
        ({
            let parts = render_actions(RenderAnswer::Pixels { rgb, faulted });
            &&& parts.len() == 1 + faulted@.len()
            &&& parts[0] == "{\"action\":\"pixels\",\"rgb\":["@ + joined(
                rgb@.map_values(|p: Rgb| pixel_text(p)),
            ) + "]}"@
            &&& 0 <= i < faulted@.len() ==> parts[i + 1]
                == "{\"action\":\"faulted\",\"source\":\""@ + hex(faulted@[i].0@) + "\"}"@
        }),
{
}

/// What a node asks for, as it is written: when to wake it, whom to send what, by how much
/// to correct the clock, and its role and epoch.
pub proof fn law_how_actions_are_written<E: Fn(&Datagram) -> Vec<u8>>(
    encode: E,
    in_us: u64,
    offset_us: i64,
    epoch: u32,
    prefix: [u8; 4],
    text: Seq<char>,
)
    ensures
        action_reads(encode, Action::SetTimer { in_us }, text) <==> text
            == "{\"action\":\"set_timer\",\"in_us\":"@ + decimal(in_us as nat) + "}"@,
        action_reads(encode, Action::DisciplineClock { offset_us }, text) <==> text
            == "{\"action\":\"discipline\",\"offset_us\":"@ + signed(offset_us as int) + "}"@,
        action_reads(encode, Action::RoleChanged { role: Role::Leader, epoch }, text) <==> text
            == "{\"action\":\"role\",\"role\":\""@ + "leader"@ + "\",\"epoch\":"@ + decimal(
            epoch as nat,
        ) + "}"@,
        action_reads(encode, Action::RoleChanged { role: Role::Follower, epoch }, text) <==> text
            == "{\"action\":\"role\",\"role\":\""@ + "follower"@ + "\",\"epoch\":"@ + decimal(
            epoch as nat,
        ) + "}"@,
        destination_text(Destination::Mesh) == "mesh"@,
        destination_text(Destination::Peer(prefix)) == hex(prefix@),
        action_reads(encode, Action::SyncLost, text) <==> text == "{\"action\":\"sync_lost\"}"@,
        action_reads(encode, Action::SyncAcquired, text) <==> text
            == "{\"action\":\"sync_acquired\"}"@,
{
}

/// What a store answers, as it is written: each entry of a digest by its identity and its
/// clock.
pub proof fn law_how_a_digest_is_written(id: Uuid, hlc: Hlc)
    ensures
        digest_text(DigestEntry { id, hlc }) == "{\"id\":\""@ + hex(id.0@) + "\",\"hlc\":"@
            + decimal(hlc.0 as nat) + "}"@,
        quoted_id(id) == "\""@ + hex(id.0@) + "\""@,
{
}

/// What the requests are for: one is greeted, one sets a machine up, one hands it an
/// event. A request that fails changes nothing of what is set up.
pub proof fn law_what_the_requests_are_for<
    M,
    P,
    U: Fn(Op, Q16, Q16, Q16) -> Q16,
    F: Fn(Option<M>, Step<P>) -> Ran<M>,
    L: Fn(&[u8]) -> Option<Loaded<P>>,
    D: Fn(&[u8]) -> Option<Datagram>,
    V: Fn(&[u8; 32], &[u8], &[u8; 64]) -> bool,
    X: Fn(&Uuid) -> ([u8; 4], [u8; 2]),
    E: Fn(&Datagram) -> Vec<u8>,
>(
    was: Machine<M>,
    now: Machine<M>,
    shell: Shell<U, F, L, D, V>,
    naming: X,
    encode: E,
    body: Json,
    r: Result<Seq<char>, Fault>,
)
    ensures
        responds(was, now, shell, naming, encode, "hello"@, body, r) ==> now == was && r is Ok,
        responds(was, now, shell, naming, encode, "reset"@, body, r) ==> (r is Ok ==> sets_up(
            naming,
            body,
            Ok(now),
        )) && (r is Err ==> now == was),
        responds(was, now, shell, naming, encode, "event"@, body, r) && r is Ok
            ==> exists|answer: Answer| #[trigger]
            handles(was, now, shell, body, Ok(answer)) && exists|parts: Seq<Seq<char>>| #[trigger]
                reads(encode, answer, parts) && r->Ok_0 == "ok {\"actions\":["@ + joined(parts)
                    + "]}"@,
{
    reveal_strlit("hello");
    reveal_strlit("reset");
    reveal_strlit("event");
    assert("hello"@[0] == 'h' && "reset"@[0] == 'r' && "event"@[0] == 'e');
    if responds(was, now, shell, naming, encode, "event"@, body, r) && r is Ok {
        let answer = choose|answer: Answer|
            {
                &&& #[trigger] handles(was, now, shell, body, Ok(answer))
                &&& replies(encode, answer, r->Ok_0)
            };
        assert(handles(was, now, shell, body, Ok(answer)));
        let parts = choose|parts: Seq<Seq<char>>| #[trigger]
            reads(encode, answer, parts) && r->Ok_0 == line_of(parts);
        assert(reads(encode, answer, parts));
    }
}

} // verus!
