//! The snapshot codec.
//!
//! A snapshot is a sequence of framed records, each `name:length:payload`,
//! where `length` is the decimal character count of the payload. The name
//! says which field the payload fills; one record per message carries the
//! transcript in order. The decoder is total: it starts from the documented
//! defaults, applies every record it recognizes, ignores unknown names and
//! out-of-range values, and stops at the first malformed frame — so a
//! snapshot with extra or missing fields still decodes, and the missing
//! fields keep their defaults. Fractional sampling values travel as their
//! thousandths; the penalties are offset by 2000 so that every numeric
//! payload is an unsigned decimal numeral.

use vstd::prelude::*;

use crate::state::ChatMessage;
use crate::state::ConversationState;
use crate::state::MessageModel;
use crate::state::Role;
use crate::state::StateModel;
use crate::state::default_state;
use crate::text::all_digits;
use crate::text::dec_rep;
use crate::text::enc_num;
use crate::text::digit_val_char;
use crate::text::is_digit;
use crate::text::is_digit_char;
use crate::text::lemma_dec_rep_digits;
use crate::text::lemma_val_of_dec_rep;
use crate::text::lemma_val_of_prefix_le;
use crate::text::parse_dec;
use crate::text::str_eq;
use crate::text::val_of;

verus! {

/// One framed record: the name, a colon, the payload length in decimal,
/// a colon, and the payload itself.
pub open spec fn rec(name: Seq<char>, payload: Seq<char>) -> Seq<char> {
    name + seq![':'] + dec_rep(payload.len()) + seq![':'] + payload
}

/// The concatenation of a list of framed records.
pub open spec fn enc_records(rl: Seq<(Seq<char>, Seq<char>)>) -> Seq<char>
    decreases rl.len(),
{
    if rl.len() == 0 {
        Seq::empty()
    } else {
        rec(rl[0].0, rl[0].1) + enc_records(rl.skip(1))
    }
}

/// A record name must not contain the frame separator.
pub open spec fn name_ok(name: Seq<char>) -> bool {
    forall|i: int| 0 <= i < name.len() ==> name[i] != ':'
}

pub open spec fn records_ok(rl: Seq<(Seq<char>, Seq<char>)>) -> bool {
    forall|k: int| 0 <= k < rl.len() ==> name_ok(#[trigger] rl[k].0)
}

/// The record name that carries a message of the given role.
pub open spec fn role_record_name(r: Role) -> Seq<char> {
    match r {
        Role::System => "msg.system"@,
        Role::User => "msg.user"@,
        Role::Assistant => "msg.assistant"@,
    }
}

/// The scalar records of a state, in the order the encoder writes them.
pub open spec fn scalar_records(m: StateModel) -> Seq<(Seq<char>, Seq<char>)> {
    seq![
        ("draft"@, m.draft_input),
        ("system_prompt"@, m.system_prompt),
        ("model"@, m.model),
        ("temperature"@, dec_rep(m.temperature_milli as nat)),
        ("top_p"@, dec_rep(m.top_p_milli as nat)),
        ("max_tokens"@, dec_rep(m.max_tokens as nat)),
        ("presence_penalty"@, dec_rep((m.presence_penalty_milli + 2000) as nat)),
        ("frequency_penalty"@, dec_rep((m.frequency_penalty_milli + 2000) as nat)),
        ("stream"@, if m.stream { "1"@ } else { "0"@ }),
    ]
}

/// One record per message, in transcript order.
pub open spec fn message_records(msgs: Seq<MessageModel>) -> Seq<(Seq<char>, Seq<char>)> {
    msgs.map(|i: int, mm: MessageModel| (role_record_name(mm.role), mm.content))
}

/// Every record of a state: the scalars, then the transcript.
pub open spec fn record_list(m: StateModel) -> Seq<(Seq<char>, Seq<char>)> {
    scalar_records(m) + message_records(m.messages)
}

/// The full snapshot text of a state.
pub open spec fn spec_snapshot(m: StateModel) -> Seq<char> {
    enc_records(record_list(m))
}

/// What one record does to a state being rebuilt: a recognized name fills
/// its field when the payload is well formed and in range, a message name
/// appends to the transcript, anything else changes nothing.
pub open spec fn apply_record(st: StateModel, name: Seq<char>, payload: Seq<char>) -> StateModel {
    if name == "draft"@ {
        StateModel { draft_input: payload, ..st }
    } else if name == "system_prompt"@ {
        StateModel { system_prompt: payload, ..st }
    } else if name == "model"@ {
        StateModel { model: payload, ..st }
    } else if name == "temperature"@ {
        if payload.len() > 0 && all_digits(payload) && val_of(payload) <= 2000 {
            StateModel { temperature_milli: val_of(payload) as u32, ..st }
        } else {
            st
        }
    } else if name == "top_p"@ {
        if payload.len() > 0 && all_digits(payload) && val_of(payload) <= 1000 {
            StateModel { top_p_milli: val_of(payload) as u32, ..st }
        } else {
            st
        }
    } else if name == "max_tokens"@ {
        if payload.len() > 0 && all_digits(payload) && 1 <= val_of(payload) <= 8192 {
            StateModel { max_tokens: val_of(payload) as u32, ..st }
        } else {
            st
        }
    } else if name == "presence_penalty"@ {
        if payload.len() > 0 && all_digits(payload) && val_of(payload) <= 4000 {
            StateModel { presence_penalty_milli: (val_of(payload) - 2000) as i32, ..st }
        } else {
            st
        }
    } else if name == "frequency_penalty"@ {
        if payload.len() > 0 && all_digits(payload) && val_of(payload) <= 4000 {
            StateModel { frequency_penalty_milli: (val_of(payload) - 2000) as i32, ..st }
        } else {
            st
        }
    } else if name == "stream"@ {
        if payload == "1"@ {
            StateModel { stream: true, ..st }
        } else if payload == "0"@ {
            StateModel { stream: false, ..st }
        } else {
            st
        }
    } else if name == "msg.system"@ {
        StateModel {
            messages: st.messages.push(MessageModel { role: Role::System, content: payload }),
            ..st
        }
    } else if name == "msg.user"@ {
        StateModel {
            messages: st.messages.push(MessageModel { role: Role::User, content: payload }),
            ..st
        }
    } else if name == "msg.assistant"@ {
        StateModel {
            messages: st.messages.push(MessageModel { role: Role::Assistant, content: payload }),
            ..st
        }
    } else {
        st
    }
}

/// The records of a list applied in order.
pub open spec fn apply_records(st: StateModel, rl: Seq<(Seq<char>, Seq<char>)>) -> StateModel
    decreases rl.len(),
{
    if rl.len() == 0 {
        st
    } else {
        apply_records(apply_record(st, rl[0].0, rl[0].1), rl.skip(1))
    }
}

proof fn lemma_enc_records_push(rl: Seq<(Seq<char>, Seq<char>)>, name: Seq<char>, payload: Seq<char>)
    ensures
        enc_records(rl.push((name, payload))) == enc_records(rl) + rec(name, payload),
    decreases rl.len(),
{
    if rl.len() == 0 {
        let one = rl.push((name, payload));
        assert(one.skip(1) =~= Seq::<(Seq<char>, Seq<char>)>::empty());
        assert(enc_records(one.skip(1)) == Seq::<char>::empty());
        assert(one[0] == (name, payload));
        assert(enc_records(one) == rec(name, payload) + Seq::<char>::empty());
        assert(rec(name, payload) + Seq::<char>::empty() =~= rec(name, payload));
        assert(enc_records(rl) == Seq::<char>::empty());
        assert(Seq::<char>::empty() + rec(name, payload) =~= rec(name, payload));
    } else {
        lemma_enc_records_push(rl.skip(1), name, payload);
        assert(rl.push((name, payload)).skip(1) =~= rl.skip(1).push((name, payload)));
        assert(rl.push((name, payload))[0] == rl[0]);
        assert(enc_records(rl.push((name, payload))) == rec(rl[0].0, rl[0].1) + (enc_records(
            rl.skip(1),
        ) + rec(name, payload)));
        assert(rec(rl[0].0, rl[0].1) + (enc_records(rl.skip(1)) + rec(name, payload)) =~= (rec(
            rl[0].0,
            rl[0].1,
        ) + enc_records(rl.skip(1))) + rec(name, payload));
    }
}

/// Appends one framed record to the output.
fn push_record(out: &mut String, name: &str, payload: &str)
    ensures
        final(out)@ == old(out)@ + rec(name@, payload@),
{
    let l = payload.unicode_len();
    let lenstr = enc_num(l);
    out.append(name);
    out.append(":");
    out.append(lenstr.as_str());
    out.append(":");
    out.append(payload);
    proof {
        reveal_strlit(":");
        assert(":"@ =~= seq![':']);
        assert(old(out)@ + rec(name@, payload@) =~= (((old(out)@ + name@) + ":"@) + dec_rep(
            payload@.len(),
        ) + ":"@) + payload@);
    }
}

impl ConversationState {
    /// Writes the whole state as one snapshot string.
    pub fn to_snapshot(&self) -> (r: String)
        requires
            self@.wf(),
        ensures
            r@ == spec_snapshot(self@),
    {
        let ghost m = self@;
        let ghost rl = record_list(m);
        let mut out = String::new();
        proof {
            assert(rl.take(0) =~= Seq::<(Seq<char>, Seq<char>)>::empty());
            assert(out@ =~= enc_records(rl.take(0)));
        }
        push_record(&mut out, "draft", self.draft_input.as_str());
        proof {
            lemma_take_step(rl, 0);
            lemma_enc_records_push(rl.take(0), rl[0].0, rl[0].1);
            assert(rl[0] == ("draft"@, m.draft_input));
        }
        push_record(&mut out, "system_prompt", self.system_prompt.as_str());
        proof {
            lemma_take_step(rl, 1);
            lemma_enc_records_push(rl.take(1), rl[1].0, rl[1].1);
            assert(rl[1] == ("system_prompt"@, m.system_prompt));
        }
        push_record(&mut out, "model", self.model.as_str());
        proof {
            lemma_take_step(rl, 2);
            lemma_enc_records_push(rl.take(2), rl[2].0, rl[2].1);
            assert(rl[2] == ("model"@, m.model));
        }
        let t = enc_num(self.temperature_milli as usize);
        push_record(&mut out, "temperature", t.as_str());
        proof {
            lemma_take_step(rl, 3);
            lemma_enc_records_push(rl.take(3), rl[3].0, rl[3].1);
            assert(rl[3] == ("temperature"@, dec_rep(m.temperature_milli as nat)));
        }
        let t = enc_num(self.top_p_milli as usize);
        push_record(&mut out, "top_p", t.as_str());
        proof {
            lemma_take_step(rl, 4);
            lemma_enc_records_push(rl.take(4), rl[4].0, rl[4].1);
            assert(rl[4] == ("top_p"@, dec_rep(m.top_p_milli as nat)));
        }
        let t = enc_num(self.max_tokens as usize);
        push_record(&mut out, "max_tokens", t.as_str());
        proof {
            lemma_take_step(rl, 5);
            lemma_enc_records_push(rl.take(5), rl[5].0, rl[5].1);
            assert(rl[5] == ("max_tokens"@, dec_rep(m.max_tokens as nat)));
        }
        let t = enc_num((self.presence_penalty_milli + 2000) as usize);
        push_record(&mut out, "presence_penalty", t.as_str());
        proof {
            lemma_take_step(rl, 6);
            lemma_enc_records_push(rl.take(6), rl[6].0, rl[6].1);
            assert(rl[6] == ("presence_penalty"@, dec_rep((m.presence_penalty_milli + 2000) as nat)));
        }
        let t = enc_num((self.frequency_penalty_milli + 2000) as usize);
        push_record(&mut out, "frequency_penalty", t.as_str());
        proof {
            lemma_take_step(rl, 7);
            lemma_enc_records_push(rl.take(7), rl[7].0, rl[7].1);
            assert(rl[7] == ("frequency_penalty"@, dec_rep((m.frequency_penalty_milli + 2000) as nat)));
        }
        push_record(&mut out, "stream", if self.stream { "1" } else { "0" });
        proof {
            lemma_take_step(rl, 8);
            lemma_enc_records_push(rl.take(8), rl[8].0, rl[8].1);
            assert(rl[8] == ("stream"@, if m.stream { "1"@ } else { "0"@ }));
        }
        let mut i: usize = 0;
        let count = self.messages.len();
        while i < count
            invariant
                0 <= i <= count,
                count == self.messages@.len(),
                m == self@,
                m.wf(),
                rl == record_list(m),
                out@ == enc_records(rl.take(9 + i)),
            decreases count - i,
        {
            let msg = &self.messages[i];
            push_record(&mut out, role_name_str(msg.role), msg.content.as_str());
            proof {
                lemma_take_step(rl, 9 + i as int);
                lemma_enc_records_push(rl.take(9 + i), rl[9 + i].0, rl[9 + i].1);
                assert(rl[9 + i] == message_records(m.messages)[i as int]);
                assert(message_records(m.messages)[i as int] == (
                    role_record_name(m.messages[i as int].role),
                    m.messages[i as int].content,
                ));
                assert(msg@ == m.messages[i as int]);
            }
            i = i + 1;
        }
        proof {
            assert(rl.take(9 + count as int) =~= rl);
        }
        out
    }
}

proof fn lemma_take_step(rl: Seq<(Seq<char>, Seq<char>)>, k: int)
    requires
        0 <= k < rl.len(),
    ensures
        rl.take(k + 1) =~= rl.take(k).push(rl[k]),
{
}

fn role_name_str(r: Role) -> (s: &'static str)
    ensures
        s@ == role_record_name(r),
{
    match r {
        Role::System => "msg.system",
        Role::User => "msg.user",
        Role::Assistant => "msg.assistant",
    }
}

/// The first separator at or after `start`, if any.
fn scan_colon(s: &str, start: usize) -> (r: Option<usize>)
    requires
        start <= s@.len(),
    ensures
        r matches Some(j) ==> start <= j < s@.len() && s@[j as int] == ':' && (forall|m: int|
            start <= m < j ==> s@[m] != ':'),
        r is None ==> forall|m: int| start <= m < s@.len() ==> s@[m] != ':',
{
    let n = s.unicode_len();
    let mut j = start;
    while j < n && s.get_char(j) != ':'
        invariant
            start <= j <= n,
            n == s@.len(),
            forall|m: int| start <= m < j ==> s@[m] != ':',
        decreases n - j,
    {
        j = j + 1;
    }
    if j < n {
        Some(j)
    } else {
        None
    }
}

/// The digit run starting at `start` is too large for a `usize`, however
/// far it is read.
pub open spec fn digit_run_overflows(s: Seq<char>, start: int) -> bool {
    forall|e: int|
        start <= e <= s.len() && all_digits(#[trigger] s.subrange(start, e)) && (e == s.len()
            || !is_digit(s[e])) ==> val_of(s.subrange(start, e)) > usize::MAX
}

/// Reads the maximal digit run at `start` as a decimal value. `None` means
/// the run's value does not fit a `usize`.
fn read_digits(s: &str, start: usize) -> (r: Option<(usize, usize)>)
    requires
        start <= s@.len(),
    ensures
        r matches Some(p) ==> ({
            &&& start <= p.1 <= s@.len()
            &&& forall|m: int| start <= m < p.1 ==> is_digit(s@[m])
            &&& (p.1 < s@.len() ==> !is_digit(s@[p.1 as int]))
            &&& p.0 as int == val_of(s@.subrange(start as int, p.1 as int))
        }),
        r is None ==> digit_run_overflows(s@, start as int),
{
    let n = s.unicode_len();
    let mut acc: usize = 0;
    let mut i = start;
    proof {
        assert(s@.subrange(start as int, start as int) =~= Seq::<char>::empty());
    }
    while i < n && is_digit_char(s.get_char(i))
        invariant
            start <= i <= n,
            n == s@.len(),
            forall|m: int| start <= m < i ==> is_digit(s@[m]),
            acc as int == val_of(s@.subrange(start as int, i as int)),
        decreases n - i,
    {
        let c = s.get_char(i);
        let dv = digit_val_char(c);
        proof {
            let t = s@.subrange(start as int, i + 1);
            assert(t.drop_last() =~= s@.subrange(start as int, i as int));
            assert(t.last() == s@[i as int]);
        }
        if acc > (usize::MAX - dv) / 10 {
            proof {
                assert(acc * 10 >= ((usize::MAX - dv) / 10 + 1) * 10);
                assert(((usize::MAX - dv) / 10 + 1) * 10 > usize::MAX - dv);
                assert(val_of(s@.subrange(start as int, i + 1)) > usize::MAX);
                assert forall|e: int|
                    start <= e <= s@.len() && all_digits(#[trigger] s@.subrange(start as int, e))
                        && (e == s@.len() || !is_digit(s@[e])) implies val_of(
                    s@.subrange(start as int, e),
                ) > usize::MAX by {
                    let d = s@.subrange(start as int, e);
                    assert(is_digit(s@[i as int]));
                    if e <= i {
                        assert(e < s@.len());
                        assert(!is_digit(s@[e]));
                        if e < i {
                            assert(is_digit(s@[e]));
                        }
                        assert(false);
                    }
                    assert(d.take(i + 1 - start) =~= s@.subrange(start as int, i + 1));
                    lemma_val_of_prefix_le(d, i + 1 - start);
                }
                assert(digit_run_overflows(s@, start as int));
            }
            return None;
        }
        proof {
            assert(acc * 10 <= ((usize::MAX - dv) / 10) * 10 <= usize::MAX - dv);
        }
        acc = acc * 10 + dv;
        i = i + 1;
    }
    Some((acc, i))
}

/// Where each part of a framed record sits inside the text that carries it.
proof fn lemma_frame(s: Seq<char>, i: int, nm: Seq<char>, pl: Seq<char>, rest: Seq<char>)
    requires
        0 <= i <= s.len(),
        s.skip(i) == rec(nm, pl) + rest,
    ensures
        s.len() >= i + nm.len() + 2 + dec_rep(pl.len()).len() + pl.len(),
        forall|k: int| 0 <= k < nm.len() ==> s[i + k] == nm[k],
        s[i + nm.len()] == ':',
        forall|t: int|
            0 <= t < dec_rep(pl.len()).len() ==> s[i + nm.len() + 1 + t] == dec_rep(pl.len())[t],
        s[i + nm.len() + 1 + dec_rep(pl.len()).len()] == ':',
        forall|t: int|
            0 <= t < pl.len() ==> s[i + nm.len() + 2 + dec_rep(pl.len()).len() + t] == pl[t],
        s.skip(i + nm.len() + 2 + dec_rep(pl.len()).len() + pl.len()) == rest,
{
    let dl = dec_rep(pl.len());
    let r = rec(nm, pl);
    assert(r.len() == nm.len() + 2 + dl.len() + pl.len());
    assert(s.skip(i).len() == s.len() - i);
    assert forall|k: int| 0 <= k < r.len() implies s[i + k] == r[k] by {
        assert(s.skip(i)[k] == s[i + k]);
    }
    assert forall|k: int| 0 <= k < nm.len() implies s[i + k] == nm[k] by {
        assert(r[k] == nm[k]);
    }
    assert(r[nm.len() as int] == ':');
    assert forall|t: int| 0 <= t < dl.len() implies s[i + nm.len() + 1 + t] == dl[t] by {
        assert(r[nm.len() + 1 + t] == dl[t]);
    }
    assert(r[nm.len() + 1 + dl.len() as int] == ':');
    assert forall|t: int| 0 <= t < pl.len() implies s[i + nm.len() + 2 + dl.len() + t] == pl[t] by {
        assert(r[nm.len() + 2 + dl.len() + t] == pl[t]);
    }
    let c = i + r.len() as int;
    assert forall|k: int| 0 <= k < rest.len() implies s.skip(c)[k] == rest[k] by {
        assert(s.skip(c)[k] == s[c + k]);
        assert(s.skip(i)[r.len() + k] == s[i + r.len() + k]);
        assert((rec(nm, pl) + rest)[r.len() + k] == rest[k]);
    }
    assert(s.skip(c).len() == rest.len());
    assert(s.skip(c) =~= rest);
}

proof fn lemma_nonempty_records(s: Seq<char>, i: int, rl: Seq<(Seq<char>, Seq<char>)>)
    requires
        0 <= i < s.len(),
        s.skip(i) == enc_records(rl),
    ensures
        rl.len() > 0,
{
    if rl.len() == 0 {
        assert(enc_records(rl) == Seq::<char>::empty());
        assert(s.skip(i).len() == s.len() - i);
    }
}

/// The first separator after a record's start is exactly where the name ends.
proof fn lemma_name_end(
    s: Seq<char>,
    i: int,
    nm: Seq<char>,
    pl: Seq<char>,
    rest: Seq<char>,
    j: int,
)
    requires
        0 <= i <= s.len(),
        s.skip(i) == rec(nm, pl) + rest,
        name_ok(nm),
        i <= j < s.len(),
        s[j] == ':',
        forall|m: int| i <= m < j ==> s[m] != ':',
    ensures
        j == i + nm.len(),
{
    lemma_frame(s, i, nm, pl, rest);
    if j < i + nm.len() {
        assert(s[j] == nm[j - i]);
        assert(nm[j - i] != ':');
        assert(false);
    }
    if j > i + nm.len() {
        assert(s[i + nm.len()] == ':');
        assert(false);
    }
}

/// The maximal digit run after the first separator ends exactly at the
/// second separator.
proof fn lemma_digits_end(
    s: Seq<char>,
    i: int,
    nm: Seq<char>,
    pl: Seq<char>,
    rest: Seq<char>,
    e: int,
)
    requires
        0 <= i <= s.len(),
        s.skip(i) == rec(nm, pl) + rest,
        i + nm.len() + 1 <= e <= s.len(),
        forall|m: int| i + nm.len() + 1 <= m < e ==> is_digit(s[m]),
        e < s.len() ==> !is_digit(s[e]),
    ensures
        e == i + nm.len() + 1 + dec_rep(pl.len()).len(),
{
    lemma_frame(s, i, nm, pl, rest);
    lemma_dec_rep_digits(pl.len());
    let dl = dec_rep(pl.len());
    let dend = i + nm.len() + 1 + dl.len() as int;
    if e < dend {
        let t = e - (i + nm.len() + 1);
        assert(s[i + nm.len() + 1 + t] == dl[t]);
        assert(is_digit(dl[t]));
        assert(e < s.len());
        assert(false);
    }
    if e > dend {
        assert(s[dend] == ':');
        assert(is_digit(s[dend]));
        assert(false);
    }
}

/// Decodes every record from position `i` on, applying each to the state.
fn decode_records(s: &str, i: usize, st: &mut ConversationState)
    requires
        i <= s@.len(),
    ensures
        old(st)@.wf() ==> final(st)@.wf(),
        forall|rl: Seq<(Seq<char>, Seq<char>)>|
            records_ok(rl) && s@.skip(i as int) == #[trigger] enc_records(rl) ==> final(st)@
                == apply_records(old(st)@, rl),
    decreases s@.len() - i,
{
    let n = s.unicode_len();
    if i == n {
        proof {
            assert forall|rl: Seq<(Seq<char>, Seq<char>)>|
                records_ok(rl) && s@.skip(i as int) == #[trigger] enc_records(rl) implies st@
                == apply_records(old(st)@, rl) by {
                assert(s@.skip(i as int).len() == 0);
                if rl.len() > 0 {
                    lemma_dec_rep_digits(rl[0].1.len());
                    assert(enc_records(rl).len() >= rec(rl[0].0, rl[0].1).len());
                    assert(false);
                }
            }
        }
        return;
    }
    let jopt = scan_colon(s, i);
    if jopt.is_none() {
        proof {
            assert forall|rl: Seq<(Seq<char>, Seq<char>)>|
                records_ok(rl) && s@.skip(i as int) == #[trigger] enc_records(rl) implies st@
                == apply_records(old(st)@, rl) by {
                lemma_nonempty_records(s@, i as int, rl);
                let nm = rl[0].0;
                let pl = rl[0].1;
                assert(name_ok(nm));
                lemma_frame(s@, i as int, nm, pl, enc_records(rl.skip(1)));
                assert(s@[i + nm.len()] == ':');
                assert(false);
            }
        }
        return;
    }
    let j = jopt.unwrap();
    let dopt = read_digits(s, j + 1);
    if dopt.is_none() {
        proof {
            assert forall|rl: Seq<(Seq<char>, Seq<char>)>|
                records_ok(rl) && s@.skip(i as int) == #[trigger] enc_records(rl) implies st@
                == apply_records(old(st)@, rl) by {
                lemma_nonempty_records(s@, i as int, rl);
                let nm = rl[0].0;
                let pl = rl[0].1;
                assert(name_ok(nm));
                let rest = enc_records(rl.skip(1));
                lemma_frame(s@, i as int, nm, pl, rest);
                lemma_name_end(s@, i as int, nm, pl, rest, j as int);
                lemma_dec_rep_digits(pl.len());
                let dl = dec_rep(pl.len());
                let dend = j + 1 + dl.len() as int;
                assert(s@.subrange(j + 1, dend) =~= dl);
                lemma_val_of_dec_rep(pl.len());
                assert(s@[dend] == ':');
                assert(!is_digit(s@[dend]));
                assert(val_of(s@.subrange(j + 1, dend)) > usize::MAX);
                assert(pl.len() <= s@.len() <= usize::MAX);
                assert(false);
            }
        }
        return;
    }
    let p = dopt.unwrap();
    let v = p.0;
    let e = p.1;
    if e == n || !(s.get_char(e) == ':') {
        proof {
            assert forall|rl: Seq<(Seq<char>, Seq<char>)>|
                records_ok(rl) && s@.skip(i as int) == #[trigger] enc_records(rl) implies st@
                == apply_records(old(st)@, rl) by {
                lemma_nonempty_records(s@, i as int, rl);
                let nm = rl[0].0;
                let pl = rl[0].1;
                assert(name_ok(nm));
                let rest = enc_records(rl.skip(1));
                lemma_frame(s@, i as int, nm, pl, rest);
                lemma_name_end(s@, i as int, nm, pl, rest, j as int);
                lemma_digits_end(s@, i as int, nm, pl, rest, e as int);
                assert(s@[e as int] == ':');
                assert(e < s@.len());
                assert(false);
            }
        }
        return;
    }
    if v > n - e - 1 {
        proof {
            assert forall|rl: Seq<(Seq<char>, Seq<char>)>|
                records_ok(rl) && s@.skip(i as int) == #[trigger] enc_records(rl) implies st@
                == apply_records(old(st)@, rl) by {
                lemma_nonempty_records(s@, i as int, rl);
                let nm = rl[0].0;
                let pl = rl[0].1;
                assert(name_ok(nm));
                let rest = enc_records(rl.skip(1));
                lemma_frame(s@, i as int, nm, pl, rest);
                lemma_name_end(s@, i as int, nm, pl, rest, j as int);
                lemma_digits_end(s@, i as int, nm, pl, rest, e as int);
                let dl = dec_rep(pl.len());
                assert(s@.subrange(j + 1, e as int) =~= dl);
                lemma_val_of_dec_rep(pl.len());
                assert(v == pl.len());
                assert(s@.len() >= i + nm.len() + 2 + dl.len() + pl.len());
                assert(false);
            }
        }
        return;
    }
    let pstart = e + 1;
    let pend = e + 1 + v;
    let name_str = s.substring_char(i, j);
    let payload_str = String::from_str(s.substring_char(pstart, pend));
    st.apply_snapshot_record(name_str, payload_str);
    let ghost mid = st@;
    decode_records(s, pend, st);
    proof {
        assert forall|rl: Seq<(Seq<char>, Seq<char>)>|
            records_ok(rl) && s@.skip(i as int) == #[trigger] enc_records(rl) implies st@
            == apply_records(old(st)@, rl) by {
            lemma_nonempty_records(s@, i as int, rl);
            let nm = rl[0].0;
            let pl = rl[0].1;
            assert(name_ok(nm));
            let rest = enc_records(rl.skip(1));
            lemma_frame(s@, i as int, nm, pl, rest);
            lemma_name_end(s@, i as int, nm, pl, rest, j as int);
            lemma_digits_end(s@, i as int, nm, pl, rest, e as int);
            let dl = dec_rep(pl.len());
            assert(s@.subrange(j + 1, e as int) =~= dl);
            lemma_val_of_dec_rep(pl.len());
            assert(v == pl.len());
            assert(name_str@ =~= nm);
            assert(payload_str@ =~= pl);
            assert(mid == apply_record(old(st)@, nm, pl));
            assert(pend == i + nm.len() + 2 + dl.len() + pl.len());
            assert(s@.skip(pend as int) == rest);
            assert forall|k: int| 0 <= k < rl.skip(1).len() implies name_ok(
                #[trigger] rl.skip(1)[k].0,
            ) by {
                assert(rl.skip(1)[k] == rl[k + 1]);
                assert(name_ok(rl[k + 1].0));
            }
            assert(records_ok(rl.skip(1)));
            assert(st@ == apply_records(mid, rl.skip(1)));
            assert(apply_records(old(st)@, rl) == apply_records(
                apply_record(old(st)@, nm, pl),
                rl.skip(1),
            ));
        }
    }
}

proof fn reveal_record_names()
    ensures
        name_ok("draft"@),
        name_ok("system_prompt"@),
        name_ok("model"@),
        name_ok("temperature"@),
        name_ok("top_p"@),
        name_ok("max_tokens"@),
        name_ok("presence_penalty"@),
        name_ok("frequency_penalty"@),
        name_ok("stream"@),
        name_ok("msg.system"@),
        name_ok("msg.user"@),
        name_ok("msg.assistant"@),
        "model"@ != "draft"@,
        "top_p"@ != "draft"@,
        "top_p"@ != "model"@,
        "msg.system"@ != "max_tokens"@,
        "msg.assistant"@ != "system_prompt"@,
        "0"@ != "1"@,
        "draft"@.len() == 5,
        "system_prompt"@.len() == 13,
        "model"@.len() == 5,
        "temperature"@.len() == 11,
        "top_p"@.len() == 5,
        "max_tokens"@.len() == 10,
        "presence_penalty"@.len() == 16,
        "frequency_penalty"@.len() == 17,
        "stream"@.len() == 6,
        "msg.system"@.len() == 10,
        "msg.user"@.len() == 8,
        "msg.assistant"@.len() == 13,
{
    reveal_strlit("draft");
    reveal_strlit("system_prompt");
    reveal_strlit("model");
    reveal_strlit("temperature");
    reveal_strlit("top_p");
    reveal_strlit("max_tokens");
    reveal_strlit("presence_penalty");
    reveal_strlit("frequency_penalty");
    reveal_strlit("stream");
    reveal_strlit("msg.system");
    reveal_strlit("msg.user");
    reveal_strlit("msg.assistant");
    reveal_strlit("0");
    reveal_strlit("1");
    assert("model"@[0] == 'm' && "draft"@[0] == 'd');
    assert("top_p"@[0] == 't');
    assert("msg.system"@[1] == 's' && "max_tokens"@[1] == 'a');
    assert("msg.assistant"@[0] == 'm' && "system_prompt"@[0] == 's');
    assert("0"@[0] == '0' && "1"@[0] == '1');
}

/// Every record an encoded snapshot carries has a separator-free name.
proof fn lemma_record_list_ok(m: StateModel)
    ensures
        records_ok(record_list(m)),
{
    reveal_record_names();
    let rl = record_list(m);
    assert forall|k: int| 0 <= k < rl.len() implies name_ok(#[trigger] rl[k].0) by {
        if k < 9 {
            assert(rl[k] == scalar_records(m)[k]);
        } else {
            assert(rl[k] == message_records(m.messages)[k - 9]);
            let mm = m.messages[k - 9];
            assert(rl[k].0 == role_record_name(mm.role));
            match mm.role {
                Role::System => assert(name_ok("msg.system"@)),
                Role::User => assert(name_ok("msg.user"@)),
                Role::Assistant => assert(name_ok("msg.assistant"@)),
            }
        }
    }
}

/// Applying the records of a transcript appends exactly that transcript.
proof fn lemma_apply_message_records(st: StateModel, msgs: Seq<MessageModel>)
    ensures
        apply_records(st, message_records(msgs)) == (StateModel {
            messages: st.messages + msgs,
            ..st
        }),
    decreases msgs.len(),
{
    reveal_record_names();
    let mr = message_records(msgs);
    if msgs.len() == 0 {
        assert(mr.len() == 0);
        assert(st.messages + msgs =~= st.messages);
        assert((StateModel { messages: st.messages + msgs, ..st }) =~~= st);
    } else {
        let mm = msgs[0];
        assert(mr[0] == (role_record_name(mm.role), mm.content));
        let st1 = apply_record(st, role_record_name(mm.role), mm.content);
        assert(st1 == (StateModel { messages: st.messages.push(mm), ..st })) by {
            match mm.role {
                Role::System => {
                    assert(MessageModel { role: Role::System, content: mm.content } =~= mm);
                },
                Role::User => {
                    assert(MessageModel { role: Role::User, content: mm.content } =~= mm);
                },
                Role::Assistant => {
                    assert(MessageModel { role: Role::Assistant, content: mm.content } =~= mm);
                },
            }
        }
        assert(mr.skip(1) =~= message_records(msgs.skip(1)));
        lemma_apply_message_records(st1, msgs.skip(1));
        assert(apply_records(st, mr) == apply_records(st1, mr.skip(1)));
        assert(st.messages.push(mm) + msgs.skip(1) =~= st.messages + msgs);
        assert((StateModel { messages: st1.messages + msgs.skip(1), ..st1 }) =~~= (StateModel {
            messages: st.messages + msgs,
            ..st
        }));
    }
}

/// The round-trip law: applying every record of a well-formed state's
/// snapshot to the documented defaults rebuilds that state exactly.
pub proof fn lemma_apply_record_list(m: StateModel)
    requires
        m.wf(),
    ensures
        apply_records(default_state(), record_list(m)) == m,
{
    reveal_record_names();
    let rl = record_list(m);
    let sc = scalar_records(m);
    assert(sc.len() == 9);
    assert forall|k: int| 0 <= k < 9 implies rl[k] == sc[k] by {}
    let s0 = default_state();
    let s1 = apply_record(s0, sc[0].0, sc[0].1);
    assert(s1 == (StateModel { draft_input: m.draft_input, ..s0 }));
    let s2 = apply_record(s1, sc[1].0, sc[1].1);
    assert(s2 == (StateModel { system_prompt: m.system_prompt, ..s1 }));
    let s3 = apply_record(s2, sc[2].0, sc[2].1);
    assert(s3 == (StateModel { model: m.model, ..s2 }));
    let s4 = apply_record(s3, sc[3].0, sc[3].1);
    assert(s4 == (StateModel { temperature_milli: m.temperature_milli, ..s3 })) by {
        lemma_dec_rep_digits(m.temperature_milli as nat);
        lemma_val_of_dec_rep(m.temperature_milli as nat);
    }
    let s5 = apply_record(s4, sc[4].0, sc[4].1);
    assert(s5 == (StateModel { top_p_milli: m.top_p_milli, ..s4 })) by {
        lemma_dec_rep_digits(m.top_p_milli as nat);
        lemma_val_of_dec_rep(m.top_p_milli as nat);
    }
    let s6 = apply_record(s5, sc[5].0, sc[5].1);
    assert(s6 == (StateModel { max_tokens: m.max_tokens, ..s5 })) by {
        lemma_dec_rep_digits(m.max_tokens as nat);
        lemma_val_of_dec_rep(m.max_tokens as nat);
    }
    let s7 = apply_record(s6, sc[6].0, sc[6].1);
    assert(s7 == (StateModel { presence_penalty_milli: m.presence_penalty_milli, ..s6 })) by {
        lemma_dec_rep_digits((m.presence_penalty_milli + 2000) as nat);
        lemma_val_of_dec_rep((m.presence_penalty_milli + 2000) as nat);
    }
    let s8 = apply_record(s7, sc[7].0, sc[7].1);
    assert(s8 == (StateModel { frequency_penalty_milli: m.frequency_penalty_milli, ..s7 })) by {
        lemma_dec_rep_digits((m.frequency_penalty_milli + 2000) as nat);
        lemma_val_of_dec_rep((m.frequency_penalty_milli + 2000) as nat);
    }
    let s9 = apply_record(s8, sc[8].0, sc[8].1);
    assert(s9 == (StateModel { stream: m.stream, ..s8 }));
    assert(s9 =~~= (StateModel { messages: Seq::empty(), ..m }));
    assert(apply_records(s0, rl) == apply_records(s1, rl.skip(1)));
    assert(rl.skip(1)[0] == rl[1]);
    assert(rl.skip(1).skip(1) =~= rl.skip(2));
    assert(apply_records(s1, rl.skip(1)) == apply_records(s2, rl.skip(2)));
    assert(rl.skip(2)[0] == rl[2]);
    assert(rl.skip(2).skip(1) =~= rl.skip(3));
    assert(apply_records(s2, rl.skip(2)) == apply_records(s3, rl.skip(3)));
    assert(rl.skip(3)[0] == rl[3]);
    assert(rl.skip(3).skip(1) =~= rl.skip(4));
    assert(apply_records(s3, rl.skip(3)) == apply_records(s4, rl.skip(4)));
    assert(rl.skip(4)[0] == rl[4]);
    assert(rl.skip(4).skip(1) =~= rl.skip(5));
    assert(apply_records(s4, rl.skip(4)) == apply_records(s5, rl.skip(5)));
    assert(rl.skip(5)[0] == rl[5]);
    assert(rl.skip(5).skip(1) =~= rl.skip(6));
    assert(apply_records(s5, rl.skip(5)) == apply_records(s6, rl.skip(6)));
    assert(rl.skip(6)[0] == rl[6]);
    assert(rl.skip(6).skip(1) =~= rl.skip(7));
    assert(apply_records(s6, rl.skip(6)) == apply_records(s7, rl.skip(7)));
    assert(rl.skip(7)[0] == rl[7]);
    assert(rl.skip(7).skip(1) =~= rl.skip(8));
    assert(apply_records(s7, rl.skip(7)) == apply_records(s8, rl.skip(8)));
    assert(rl.skip(8)[0] == rl[8]);
    assert(rl.skip(8).skip(1) =~= rl.skip(9));
    assert(apply_records(s8, rl.skip(8)) == apply_records(s9, rl.skip(9)));
    assert(rl.skip(9) =~= message_records(m.messages));
    lemma_apply_message_records(s9, m.messages);
    assert(Seq::<MessageModel>::empty() + m.messages =~= m.messages);
    assert(apply_records(s9, message_records(m.messages)) =~~= m);
}

/// Turns a biased numeric payload value back into a penalty.
fn unbias_penalty(v: usize) -> (r: i32)
    requires
        v <= 4000,
    ensures
        r as int == v - 2000,
{
    if v >= 2000 {
        (v - 2000) as i32
    } else {
        let d = (2000 - v) as i32;
        0 - d
    }
}

impl ConversationState {
    /// Applies one decoded record to the state, exactly as `apply_record`
    /// says; out-of-range or ill-formed payloads change nothing.
    fn apply_snapshot_record(&mut self, name: &str, payload: String)
        ensures
            final(self)@ == apply_record(old(self)@, name@, payload@),
            old(self)@.wf() ==> final(self)@.wf(),
    {
        let ghost target = apply_record(old(self)@, name@, payload@);
        if str_eq(name, "draft") {
            self.draft_input = payload;
        } else if str_eq(name, "system_prompt") {
            self.system_prompt = payload;
        } else if str_eq(name, "model") {
            self.model = payload;
        } else if str_eq(name, "temperature") {
            if let Some(v) = parse_dec(payload.as_str()) {
                if v <= 2000 {
                    self.temperature_milli = v as u32;
                }
            }
        } else if str_eq(name, "top_p") {
            if let Some(v) = parse_dec(payload.as_str()) {
                if v <= 1000 {
                    self.top_p_milli = v as u32;
                }
            }
        } else if str_eq(name, "max_tokens") {
            if let Some(v) = parse_dec(payload.as_str()) {
                if 1 <= v && v <= 8192 {
                    self.max_tokens = v as u32;
                }
            }
        } else if str_eq(name, "presence_penalty") {
            if let Some(v) = parse_dec(payload.as_str()) {
                if v <= 4000 {
                    self.presence_penalty_milli = unbias_penalty(v);
                }
            }
        } else if str_eq(name, "frequency_penalty") {
            if let Some(v) = parse_dec(payload.as_str()) {
                if v <= 4000 {
                    self.frequency_penalty_milli = unbias_penalty(v);
                }
            }
        } else if str_eq(name, "stream") {
            if str_eq(payload.as_str(), "1") {
                self.stream = true;
            } else if str_eq(payload.as_str(), "0") {
                self.stream = false;
            }
        } else if str_eq(name, "msg.system") {
            self.messages.push(ChatMessage { role: Role::System, content: payload });
        } else if str_eq(name, "msg.user") {
            self.messages.push(ChatMessage { role: Role::User, content: payload });
        } else if str_eq(name, "msg.assistant") {
            self.messages.push(ChatMessage { role: Role::Assistant, content: payload });
        }
        proof {
            assert(self@ =~~= target);
        }
    }

    /// Rebuilds a state from a snapshot. Decoding is total: whatever the
    /// text holds, the result is well formed; a field whose record is
    /// missing keeps its documented default, and the snapshot of any
    /// well-formed state decodes to exactly that state (the round trip).
    pub fn from_snapshot(s: &str) -> (st: ConversationState)
        ensures
            st@.wf(),
            forall|rl: Seq<(Seq<char>, Seq<char>)>|
                records_ok(rl) && s@ == #[trigger] enc_records(rl) ==> st@ == apply_records(
                    default_state(),
                    rl,
                ),
            forall|m: StateModel| m.wf() && s@ == spec_snapshot(m) ==> st@ == m,
    {
        let mut st = ConversationState::default();
        decode_records(s, 0, &mut st);
        proof {
            crate::state::lemma_default_state_wf();
            assert(s@.skip(0) =~= s@);
            assert forall|m: StateModel| m.wf() && s@ == spec_snapshot(m) implies st@ == m by {
                lemma_record_list_ok(m);
                assert(st@ == apply_records(default_state(), record_list(m)));
                lemma_apply_record_list(m);
            }
        }
        st
    }

    /// The state the session starts from: a stored snapshot when the host
    /// kept one, else the documented defaults.
    pub fn initialize(stored: Option<String>) -> (st: ConversationState)
        ensures
            st@.wf(),
            stored is None ==> st@ == default_state(),
            stored matches Some(snap) ==> forall|m: StateModel|
                m.wf() && snap@ == spec_snapshot(m) ==> st@ == m,
    {
        match stored {
            None => {
                let st = ConversationState::default();
                proof {
                    crate::state::lemma_default_state_wf();
                }
                st
            },
            Some(snap) => ConversationState::from_snapshot(snap.as_str()),
        }
    }
}

/// A record list that never names a field leaves that field alone: a
/// snapshot with the field's record missing keeps the documented default
/// it started from, whatever else the snapshot carries.
pub proof fn lemma_unnamed_fields_unchanged(st: StateModel, rl: Seq<(Seq<char>, Seq<char>)>)
    ensures
        (forall|k: int| 0 <= k < rl.len() ==> (#[trigger] rl[k].0) != "draft"@) ==> apply_records(
            st,
            rl,
        ).draft_input == st.draft_input,
        (forall|k: int| 0 <= k < rl.len() ==> (#[trigger] rl[k].0) != "system_prompt"@)
            ==> apply_records(st, rl).system_prompt == st.system_prompt,
        (forall|k: int| 0 <= k < rl.len() ==> (#[trigger] rl[k].0) != "model"@) ==> apply_records(
            st,
            rl,
        ).model == st.model,
        (forall|k: int| 0 <= k < rl.len() ==> (#[trigger] rl[k].0) != "temperature"@)
            ==> apply_records(st, rl).temperature_milli == st.temperature_milli,
        (forall|k: int| 0 <= k < rl.len() ==> (#[trigger] rl[k].0) != "top_p"@) ==> apply_records(
            st,
            rl,
        ).top_p_milli == st.top_p_milli,
        (forall|k: int| 0 <= k < rl.len() ==> (#[trigger] rl[k].0) != "max_tokens"@)
            ==> apply_records(st, rl).max_tokens == st.max_tokens,
        (forall|k: int| 0 <= k < rl.len() ==> (#[trigger] rl[k].0) != "presence_penalty"@)
            ==> apply_records(st, rl).presence_penalty_milli == st.presence_penalty_milli,
        (forall|k: int| 0 <= k < rl.len() ==> (#[trigger] rl[k].0) != "frequency_penalty"@)
            ==> apply_records(st, rl).frequency_penalty_milli == st.frequency_penalty_milli,
        (forall|k: int| 0 <= k < rl.len() ==> (#[trigger] rl[k].0) != "stream"@) ==> apply_records(
            st,
            rl,
        ).stream == st.stream,
    decreases rl.len(),
{
    if rl.len() > 0 {
        let st1 = apply_record(st, rl[0].0, rl[0].1);
        lemma_unnamed_fields_unchanged(st1, rl.skip(1));
        assert forall|k: int| 0 <= k < rl.skip(1).len() implies rl.skip(1)[k] == rl[k + 1] by {}
    }
}

} // verus!
