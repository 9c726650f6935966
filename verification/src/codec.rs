use vstd::prelude::*;
use crate::db::{DBState, JiraDatabaseError};
use crate::id_map::IdMap;
use crate::models::{Epic, EpicView, Status, Story, StoryView};
use crate::text::{all_digits, char_digit, dec_digits, digits_value, is_dec_digit, lemma_dec_digits_value, lemma_dec_digits_leading, u32_to_string};

verus! {

// The persisted form of a snapshot is one line of text: every number is
// written in decimal and closed with a semicolon, every string is written
// as its character count followed by the characters themselves, and a
// status is a single letter. The two collections are written as a count
// followed by that many id-payload entries in ascending id order.

/// A number token: decimal digits closed by a semicolon.
pub open spec fn enc_num(n: int) -> Seq<char> {
    dec_digits(n) + seq![';']
}

/// A string token: the character count, then the characters themselves.
pub open spec fn enc_str(t: Seq<char>) -> Seq<char> {
    enc_num(t.len() as int) + t
}

/// The letter of a status.
pub open spec fn status_char(st: Status) -> char {
    match st {
        Status::Open => 'o',
        Status::InProgress => 'i',
        Status::Resolved => 'r',
        Status::Closed => 'c',
    }
}

pub open spec fn enc_story(s: StoryView) -> Seq<char> {
    enc_str(s.name) + enc_str(s.description) + seq![status_char(s.status)]
}

pub open spec fn enc_id_list(l: Seq<u32>) -> Seq<char>
    decreases l.len(),
{
    if l.len() == 0 {
        Seq::empty()
    } else {
        enc_num(l.first() as int) + enc_id_list(l.drop_first())
    }
}

pub open spec fn enc_epic(e: EpicView) -> Seq<char> {
    enc_str(e.name) + enc_str(e.description) + seq![status_char(e.status)] + enc_num(
        e.stories.len() as int,
    ) + enc_id_list(e.stories)
}

pub open spec fn enc_epic_entries(es: Seq<(u32, EpicView)>) -> Seq<char>
    decreases es.len(),
{
    if es.len() == 0 {
        Seq::empty()
    } else {
        enc_num(es.first().0 as int) + enc_epic(es.first().1) + enc_epic_entries(es.drop_first())
    }
}

pub open spec fn enc_story_entries(ss: Seq<(u32, StoryView)>) -> Seq<char>
    decreases ss.len(),
{
    if ss.len() == 0 {
        Seq::empty()
    } else {
        enc_num(ss.first().0 as int) + enc_story(ss.first().1) + enc_story_entries(ss.drop_first())
    }
}

/// The full persisted text of a snapshot.
pub open spec fn enc_db(last: u32, es: Seq<(u32, EpicView)>, ss: Seq<(u32, StoryView)>) -> Seq<
    char,
> {
    enc_num(last as int) + enc_num(es.len() as int) + enc_epic_entries(es) + enc_num(
        ss.len() as int,
    ) + enc_story_entries(ss)
}

/// Every string a snapshot holds is short enough for its length to be
/// written as one of the format's numbers.
pub open spec fn epic_encodable(e: EpicView) -> bool {
    &&& e.name.len() <= u32::MAX
    &&& e.description.len() <= u32::MAX
    &&& e.stories.len() <= u32::MAX
}

pub open spec fn story_encodable(s: StoryView) -> bool {
    &&& s.name.len() <= u32::MAX
    &&& s.description.len() <= u32::MAX
}

pub open spec fn db_encodable(es: Seq<(u32, EpicView)>, ss: Seq<(u32, StoryView)>) -> bool {
    &&& es.len() <= u32::MAX
    &&& ss.len() <= u32::MAX
    &&& forall|i: int| 0 <= i < es.len() ==> epic_encodable((#[trigger] es[i]).1)
    &&& forall|i: int| 0 <= i < ss.len() ==> story_encodable((#[trigger] ss[i]).1)
}

fn append_num(out: &mut String, n: u32)
    ensures
        final(out)@ == old(out)@ + enc_num(n as int),
{
    out.append(u32_to_string(n).as_str());
    out.append(";");
    proof {
        reveal_strlit(";");
        assert(";"@ =~= seq![';']);
        assert(out@ =~= old(out)@ + enc_num(n as int));
    }
}

fn append_str(out: &mut String, t: &str)
    requires
        t@.len() <= u32::MAX,
    ensures
        final(out)@ == old(out)@ + enc_str(t@),
{
    let len = t.unicode_len();
    append_num(out, len as u32);
    out.append(t);
    proof {
        assert(out@ =~= old(out)@ + enc_str(t@));
    }
}

fn status_letter(st: &Status) -> (r: &'static str)
    ensures
        r@ == seq![status_char(*st)],
{
    match st {
        Status::Open => {
            proof {
                reveal_strlit("o");
            }
            "o"
        },
        Status::InProgress => {
            proof {
                reveal_strlit("i");
            }
            "i"
        },
        Status::Resolved => {
            proof {
                reveal_strlit("r");
            }
            "r"
        },
        Status::Closed => {
            proof {
                reveal_strlit("c");
            }
            "c"
        },
    }
}

fn append_story(out: &mut String, s: &Story)
    requires
        story_encodable(s@),
    ensures
        final(out)@ == old(out)@ + enc_story(s@),
{
    append_str(out, s.name.as_str());
    append_str(out, s.description.as_str());
    out.append(status_letter(&s.status));
    proof {
        assert(out@ =~= old(out)@ + enc_story(s@));
    }
}

fn append_epic(out: &mut String, e: &Epic)
    requires
        epic_encodable(e@),
    ensures
        final(out)@ == old(out)@ + enc_epic(e@),
{
    append_str(out, e.name.as_str());
    append_str(out, e.description.as_str());
    out.append(status_letter(&e.status));
    let count = e.stories.len();
    append_num(out, count as u32);
    let ghost mid = out@;
    let ghost list = e.stories@;
    let mut i: usize = 0;
    while i < count
        invariant
            count == e.stories.len(),
            0 <= i <= count,
            list == e.stories@,
            out@ == mid + enc_id_list(list.take(i as int)),
        decreases count - i,
    {
        append_num(out, e.stories[i]);
        proof {
            lemma_enc_id_list_take_step(list, i as int);
            assert(out@ =~= mid + enc_id_list(list.take(i + 1 as int)));
        }
        i += 1;
    }
    proof {
        assert(list.take(count as int) =~= list);
        assert(out@ =~= old(out)@ + enc_epic(e@));
    }
}

/// Extending the encoded prefix of an id list by one id.
proof fn lemma_enc_id_list_take_step(l: Seq<u32>, i: int)
    requires
        0 <= i < l.len(),
    ensures
        enc_id_list(l.take(i + 1)) == enc_id_list(l.take(i)) + enc_num(l[i] as int),
    decreases i,
{
    if i == 0 {
        assert(l.take(1).first() == l[0]);
        assert(l.take(1).drop_first() =~= Seq::<u32>::empty());
        assert(l.take(0) =~= Seq::<u32>::empty());
        assert(enc_id_list(l.take(1)) =~= enc_id_list(l.take(0)) + enc_num(l[0] as int));
    } else {
        let a = l.take(i + 1);
        let b = l.take(i);
        assert(a.first() == l[0]);
        assert(b.first() == l[0]);
        assert(a.drop_first() =~= l.drop_first().take(i));
        assert(b.drop_first() =~= l.drop_first().take(i - 1));
        lemma_enc_id_list_take_step(l.drop_first(), i - 1);
        assert(l.drop_first()[i - 1] == l[i]);
        assert(enc_id_list(a) =~= enc_id_list(b) + enc_num(l[i] as int));
    }
}

/// Extending the encoded prefix of the epic entries by one entry.
proof fn lemma_enc_epic_entries_take_step(es: Seq<(u32, EpicView)>, i: int)
    requires
        0 <= i < es.len(),
    ensures
        enc_epic_entries(es.take(i + 1)) == enc_epic_entries(es.take(i)) + enc_num(
            es[i].0 as int,
        ) + enc_epic(es[i].1),
    decreases i,
{
    if i == 0 {
        assert(es.take(1).first() == es[0]);
        assert(es.take(1).drop_first() =~= Seq::<(u32, EpicView)>::empty());
        assert(es.take(0) =~= Seq::<(u32, EpicView)>::empty());
        assert(enc_epic_entries(es.take(1)) =~= enc_epic_entries(es.take(0)) + enc_num(
            es[0].0 as int,
        ) + enc_epic(es[0].1));
    } else {
        let a = es.take(i + 1);
        let b = es.take(i);
        assert(a.first() == es[0]);
        assert(b.first() == es[0]);
        assert(a.drop_first() =~= es.drop_first().take(i));
        assert(b.drop_first() =~= es.drop_first().take(i - 1));
        lemma_enc_epic_entries_take_step(es.drop_first(), i - 1);
        assert(es.drop_first()[i - 1] == es[i]);
        assert(enc_epic_entries(a) =~= enc_epic_entries(b) + enc_num(es[i].0 as int) + enc_epic(
            es[i].1,
        ));
    }
}

/// Extending the encoded prefix of the story entries by one entry.
proof fn lemma_enc_story_entries_take_step(ss: Seq<(u32, StoryView)>, i: int)
    requires
        0 <= i < ss.len(),
    ensures
        enc_story_entries(ss.take(i + 1)) == enc_story_entries(ss.take(i)) + enc_num(
            ss[i].0 as int,
        ) + enc_story(ss[i].1),
    decreases i,
{
    if i == 0 {
        assert(ss.take(1).first() == ss[0]);
        assert(ss.take(1).drop_first() =~= Seq::<(u32, StoryView)>::empty());
        assert(ss.take(0) =~= Seq::<(u32, StoryView)>::empty());
        assert(enc_story_entries(ss.take(1)) =~= enc_story_entries(ss.take(0)) + enc_num(
            ss[0].0 as int,
        ) + enc_story(ss[0].1));
    } else {
        let a = ss.take(i + 1);
        let b = ss.take(i);
        assert(a.first() == ss[0]);
        assert(b.first() == ss[0]);
        assert(a.drop_first() =~= ss.drop_first().take(i));
        assert(b.drop_first() =~= ss.drop_first().take(i - 1));
        lemma_enc_story_entries_take_step(ss.drop_first(), i - 1);
        assert(ss.drop_first()[i - 1] == ss[i]);
        assert(enc_story_entries(a) =~= enc_story_entries(b) + enc_num(ss[i].0 as int) + enc_story(
            ss[i].1,
        ));
    }
}

/// Write a snapshot as text.
pub fn encode_db(state: &DBState) -> (r: String)
    requires
        db_encodable(state.epics.entry_seq(), state.stories.entry_seq()),
    ensures
        r@ == enc_db(state.last_item_id, state.epics.entry_seq(), state.stories.entry_seq()),
{
    let ghost es = state.epics.entry_seq();
    let ghost ss = state.stories.entry_seq();
    let mut out = String::new();
    append_num(&mut out, state.last_item_id);
    let ecount = state.epics.len();
    append_num(&mut out, ecount as u32);
    let ghost mid = out@;
    let mut i: usize = 0;
    while i < ecount
        invariant
            db_encodable(es, ss),
            es == state.epics.entry_seq(),
            ecount == es.len(),
            0 <= i <= ecount,
            out@ == mid + enc_epic_entries(es.take(i as int)),
        decreases ecount - i,
    {
        append_num(&mut out, state.epics.key_at(i));
        append_epic(&mut out, state.epics.value_at(i));
        proof {
            lemma_enc_epic_entries_take_step(es, i as int);
            assert(out@ =~= mid + enc_epic_entries(es.take(i + 1 as int)));
        }
        i += 1;
    }
    proof {
        assert(es.take(ecount as int) =~= es);
    }
    let scount = state.stories.len();
    append_num(&mut out, scount as u32);
    let ghost mid2 = out@;
    let mut j: usize = 0;
    while j < scount
        invariant
            db_encodable(es, ss),
            ss == state.stories.entry_seq(),
            scount == ss.len(),
            0 <= j <= scount,
            out@ == mid2 + enc_story_entries(ss.take(j as int)),
        decreases scount - j,
    {
        append_num(&mut out, state.stories.key_at(j));
        append_story(&mut out, state.stories.value_at(j));
        proof {
            lemma_enc_story_entries_take_step(ss, j as int);
            assert(out@ =~= mid2 + enc_story_entries(ss.take(j + 1 as int)));
        }
        j += 1;
    }
    proof {
        assert(ss.take(scount as int) =~= ss);
        assert(out@ =~= enc_db(state.last_item_id, es, ss));
    }
    out
}

// What a reader makes of the text, one token at a time. Each parser takes
// the whole text and a position and yields the value it read and the
// position after it, or nothing when the text does not fit the format.

pub open spec fn sp_digits(s: Seq<char>, pos: int, acc: int) -> Option<(int, int)>
    decreases s.len() - pos,
{
    if pos < 0 || pos >= s.len() {
        None
    } else if s[pos] == ';' {
        Some((acc, pos + 1))
    } else if is_dec_digit(s[pos]) {
        sp_digits(s, pos + 1, acc * 10 + char_digit(s[pos]))
    } else {
        None
    }
}

/// A number token: at least one digit, no redundant leading zero, a value
/// that fits, and the closing semicolon.
pub open spec fn sp_num(s: Seq<char>, pos: int) -> Option<(u32, int)> {
    if 0 <= pos && pos < s.len() && is_dec_digit(s[pos]) && !(s[pos] == '0' && pos + 1 < s.len()
        && is_dec_digit(s[pos + 1])) {
        match sp_digits(s, pos, 0) {
            Some((v, end)) => if v <= u32::MAX {
                Some((v as u32, end))
            } else {
                None
            },
            None => None,
        }
    } else {
        None
    }
}

pub open spec fn sp_str(s: Seq<char>, pos: int) -> Option<(Seq<char>, int)> {
    match sp_num(s, pos) {
        Some((len, p1)) => if p1 + len <= s.len() {
            Some((s.subrange(p1, p1 + len), p1 + len))
        } else {
            None
        },
        None => None,
    }
}

pub open spec fn sp_status(s: Seq<char>, pos: int) -> Option<(Status, int)> {
    if 0 <= pos && pos < s.len() {
        if s[pos] == 'o' {
            Some((Status::Open, pos + 1))
        } else if s[pos] == 'i' {
            Some((Status::InProgress, pos + 1))
        } else if s[pos] == 'r' {
            Some((Status::Resolved, pos + 1))
        } else if s[pos] == 'c' {
            Some((Status::Closed, pos + 1))
        } else {
            None
        }
    } else {
        None
    }
}

pub open spec fn sp_story(s: Seq<char>, pos: int) -> Option<(StoryView, int)> {
    match sp_str(s, pos) {
        Some((name, p1)) => match sp_str(s, p1) {
            Some((desc, p2)) => match sp_status(s, p2) {
                Some((st, p3)) => Some(
                    (StoryView { name: name, description: desc, status: st }, p3),
                ),
                None => None,
            },
            None => None,
        },
        None => None,
    }
}

pub open spec fn sp_id_list(s: Seq<char>, pos: int, count: int) -> Option<(Seq<u32>, int)>
    decreases count,
{
    if count <= 0 {
        Some((Seq::empty(), pos))
    } else {
        match sp_num(s, pos) {
            Some((id, p1)) => match sp_id_list(s, p1, count - 1) {
                Some((rest, p2)) => Some((seq![id] + rest, p2)),
                None => None,
            },
            None => None,
        }
    }
}

pub open spec fn sp_epic(s: Seq<char>, pos: int) -> Option<(EpicView, int)> {
    match sp_str(s, pos) {
        Some((name, p1)) => match sp_str(s, p1) {
            Some((desc, p2)) => match sp_status(s, p2) {
                Some((st, p3)) => match sp_num(s, p3) {
                    Some((count, p4)) => match sp_id_list(s, p4, count as int) {
                        Some((list, p5)) => Some(
                            (
                                EpicView {
                                    name: name,
                                    description: desc,
                                    status: st,
                                    stories: list,
                                },
                                p5,
                            ),
                        ),
                        None => None,
                    },
                    None => None,
                },
                None => None,
            },
            None => None,
        },
        None => None,
    }
}

/// Entries are read with strictly rising ids; `lo` is the largest id seen
/// so far, or below every id at the start.
pub open spec fn sp_epic_entries(s: Seq<char>, pos: int, count: int, lo: int) -> Option<
    (Seq<(u32, EpicView)>, int),
>
    decreases count,
{
    if count <= 0 {
        Some((Seq::empty(), pos))
    } else {
        match sp_num(s, pos) {
            Some((id, p1)) => if id <= lo {
                None
            } else {
                match sp_epic(s, p1) {
                    Some((e, p2)) => match sp_epic_entries(s, p2, count - 1, id as int) {
                        Some((rest, p3)) => Some((seq![(id, e)] + rest, p3)),
                        None => None,
                    },
                    None => None,
                }
            },
            None => None,
        }
    }
}

pub open spec fn sp_story_entries(s: Seq<char>, pos: int, count: int, lo: int) -> Option<
    (Seq<(u32, StoryView)>, int),
>
    decreases count,
{
    if count <= 0 {
        Some((Seq::empty(), pos))
    } else {
        match sp_num(s, pos) {
            Some((id, p1)) => if id <= lo {
                None
            } else {
                match sp_story(s, p1) {
                    Some((v, p2)) => match sp_story_entries(s, p2, count - 1, id as int) {
                        Some((rest, p3)) => Some((seq![(id, v)] + rest, p3)),
                        None => None,
                    },
                    None => None,
                }
            },
            None => None,
        }
    }
}

/// The whole text as one snapshot, with nothing left over.
pub open spec fn sp_db(s: Seq<char>) -> Option<
    (u32, Seq<(u32, EpicView)>, Seq<(u32, StoryView)>),
> {
    match sp_num(s, 0) {
        Some((last, p1)) => match sp_num(s, p1) {
            Some((ec, p2)) => match sp_epic_entries(s, p2, ec as int, -1) {
                Some((es, p3)) => match sp_num(s, p3) {
                    Some((sc, p4)) => match sp_story_entries(s, p4, sc as int, -1) {
                        Some((ss, p5)) => if p5 == s.len() {
                            Some((last, es, ss))
                        } else {
                            None
                        },
                        None => None,
                    },
                    None => None,
                },
                None => None,
            },
            None => None,
        },
        None => None,
    }
}

/// The text holds the given token at the given position.
pub open spec fn has_at(s: Seq<char>, pos: int, t: Seq<char>) -> bool {
    0 <= pos && pos + t.len() <= s.len() && s.subrange(pos, pos + t.len()) == t
}

proof fn lemma_has_at_split(s: Seq<char>, pos: int, a: Seq<char>, b: Seq<char>)
    requires
        has_at(s, pos, a + b),
    ensures
        has_at(s, pos, a),
        has_at(s, pos + a.len(), b),
{
    let whole = s.subrange(pos, pos + (a + b).len());
    assert forall|i: int| 0 <= i < a.len() implies s.subrange(pos, pos + a.len())[i] == a[i] by {
        assert(whole[i] == (a + b)[i]);
    }
    assert(s.subrange(pos, pos + a.len()) =~= a);
    assert forall|i: int| 0 <= i < b.len() implies s.subrange(
        pos + a.len(),
        pos + a.len() + b.len(),
    )[i] == b[i] by {
        assert(whole[a.len() + i] == (a + b)[a.len() + i]);
    }
    assert(s.subrange(pos + a.len(), pos + a.len() + b.len()) =~= b);
}

proof fn lemma_sp_digits_at(s: Seq<char>, pos: int, d: Seq<char>, acc: int)
    requires
        all_digits(d),
        0 <= pos,
        pos + d.len() < s.len(),
        forall|i: int| 0 <= i < d.len() ==> s[pos + i] == d[i],
        s[pos + d.len()] == ';',
    ensures
        sp_digits(s, pos, acc) == Some((digits_value(d, acc), pos + d.len() + 1)),
    decreases d.len(),
{
    if d.len() == 0 {
        assert(s[pos] == ';');
    } else {
        assert(s[pos] == d[0]);
        assert(is_dec_digit(d[0]));
        assert(d[0] != ';');
        let t = d.drop_first();
        assert(all_digits(t)) by {
            assert forall|i: int| 0 <= i < t.len() implies is_dec_digit(#[trigger] t[i]) by {
                assert(t[i] == d[i + 1]);
            }
        }
        assert forall|i: int| 0 <= i < t.len() implies s[pos + 1 + i] == t[i] by {
            assert(t[i] == d[i + 1]);
            assert(s[pos + (i + 1)] == d[i + 1]);
        }
        assert(s[pos + 1 + t.len()] == ';');
        lemma_sp_digits_at(s, pos + 1, t, acc * 10 + char_digit(d[0]));
        assert(d.first() == d[0]);
        assert(digits_value(d, acc) == digits_value(t, acc * 10 + char_digit(d[0])));
    }
}

proof fn lemma_sp_num_at(s: Seq<char>, pos: int, n: u32)
    requires
        has_at(s, pos, enc_num(n as int)),
    ensures
        sp_num(s, pos) == Some((n, pos + enc_num(n as int).len())),
{
    let d = dec_digits(n as int);
    lemma_dec_digits_value(n as int);
    lemma_dec_digits_leading(n as int);
    let token = s.subrange(pos, pos + enc_num(n as int).len());
    assert forall|i: int| 0 <= i < d.len() implies s[pos + i] == d[i] by {
        assert(token[i] == (d + seq![';'])[i]);
    }
    assert(s[pos + d.len()] == ';') by {
        assert(token[d.len() as int] == (d + seq![';'])[d.len() as int]);
    }
    assert(pos + d.len() < s.len());
    lemma_sp_digits_at(s, pos, d, 0);
    assert(s[pos] == d[0]);
    assert(is_dec_digit(s[pos]));
    if s[pos] == '0' && pos + 1 < s.len() && is_dec_digit(s[pos + 1]) {
        assert(d[0] == '0');
        assert(d.len() > 1 ==> d[0] != '0');
        assert(d.len() == 1);
        assert(s[pos + 1] == ';');
        assert(!is_dec_digit(';'));
    }
}

proof fn lemma_sp_str_at(s: Seq<char>, pos: int, t: Seq<char>)
    requires
        has_at(s, pos, enc_str(t)),
        t.len() <= u32::MAX,
    ensures
        sp_str(s, pos) == Some((t, pos + enc_str(t).len())),
{
    lemma_has_at_split(s, pos, enc_num(t.len() as int), t);
    lemma_sp_num_at(s, pos, t.len() as u32);
    let p1 = pos + enc_num(t.len() as int).len();
    assert(s.subrange(p1, p1 + t.len()) == t);
}

proof fn lemma_sp_status_at(s: Seq<char>, pos: int, st: Status)
    requires
        has_at(s, pos, seq![status_char(st)]),
    ensures
        sp_status(s, pos) == Some((st, pos + 1)),
{
    assert(s.subrange(pos, pos + 1)[0] == seq![status_char(st)][0]);
    assert(s[pos] == status_char(st));
}

proof fn lemma_sp_story_at(s: Seq<char>, pos: int, v: StoryView)
    requires
        has_at(s, pos, enc_story(v)),
        story_encodable(v),
    ensures
        sp_story(s, pos) == Some((v, pos + enc_story(v).len())),
{
    let a = enc_str(v.name);
    let b = enc_str(v.description);
    let c = seq![status_char(v.status)];
    assert(enc_story(v) =~= a + (b + c));
    lemma_has_at_split(s, pos, a, b + c);
    lemma_sp_str_at(s, pos, v.name);
    lemma_has_at_split(s, pos + a.len(), b, c);
    lemma_sp_str_at(s, pos + a.len(), v.description);
    lemma_sp_status_at(s, pos + a.len() + b.len(), v.status);
    assert(sp_story(s, pos) == Some((v, pos + enc_story(v).len())));
}

proof fn lemma_sp_id_list_at(s: Seq<char>, pos: int, l: Seq<u32>)
    requires
        has_at(s, pos, enc_id_list(l)),
    ensures
        sp_id_list(s, pos, l.len() as int) == Some((l, pos + enc_id_list(l).len())),
    decreases l.len(),
{
    if l.len() == 0 {
        assert(sp_id_list(s, pos, 0) == Some((Seq::<u32>::empty(), pos)));
        assert(l =~= Seq::<u32>::empty());
    } else {
        let a = enc_num(l.first() as int);
        let b = enc_id_list(l.drop_first());
        assert(enc_id_list(l) == a + b);
        lemma_has_at_split(s, pos, a, b);
        lemma_sp_num_at(s, pos, l.first());
        lemma_sp_id_list_at(s, pos + a.len(), l.drop_first());
        assert(seq![l.first()] + l.drop_first() =~= l);
    }
}

proof fn lemma_sp_epic_at(s: Seq<char>, pos: int, v: EpicView)
    requires
        has_at(s, pos, enc_epic(v)),
        epic_encodable(v),
    ensures
        sp_epic(s, pos) == Some((v, pos + enc_epic(v).len())),
{
    let a = enc_str(v.name);
    let b = enc_str(v.description);
    let c = seq![status_char(v.status)];
    let d = enc_num(v.stories.len() as int);
    let e = enc_id_list(v.stories);
    assert(enc_epic(v) =~= a + (b + (c + (d + e))));
    lemma_has_at_split(s, pos, a, b + (c + (d + e)));
    lemma_sp_str_at(s, pos, v.name);
    let p1 = pos + a.len();
    lemma_has_at_split(s, p1, b, c + (d + e));
    lemma_sp_str_at(s, p1, v.description);
    let p2 = p1 + b.len();
    lemma_has_at_split(s, p2, c, d + e);
    lemma_sp_status_at(s, p2, v.status);
    let p3 = p2 + c.len();
    lemma_has_at_split(s, p3, d, e);
    lemma_sp_num_at(s, p3, v.stories.len() as u32);
    let p4 = p3 + d.len();
    lemma_sp_id_list_at(s, p4, v.stories);
    assert(sp_epic(s, pos) == Some((v, pos + enc_epic(v).len())));
}

proof fn lemma_sp_epic_entries_at(s: Seq<char>, pos: int, es: Seq<(u32, EpicView)>, lo: int)
    requires
        has_at(s, pos, enc_epic_entries(es)),
        forall|i: int| 0 <= i < es.len() ==> epic_encodable((#[trigger] es[i]).1),
        forall|i: int, j: int| 0 <= i < j < es.len() ==> (#[trigger] es[i]).0 < (#[trigger] es[j]).0,
        forall|i: int| 0 <= i < es.len() ==> lo < (#[trigger] es[i]).0,
    ensures
        sp_epic_entries(s, pos, es.len() as int, lo) == Some(
            (es, pos + enc_epic_entries(es).len()),
        ),
    decreases es.len(),
{
    if es.len() == 0 {
        assert(es =~= Seq::<(u32, EpicView)>::empty());
    } else {
        let head = es.first();
        let a = enc_num(head.0 as int);
        let b = enc_epic(head.1);
        let rest = es.drop_first();
        assert(enc_epic_entries(es) =~= a + (b + enc_epic_entries(rest)));
        lemma_has_at_split(s, pos, a, b + enc_epic_entries(rest));
        lemma_sp_num_at(s, pos, head.0);
        let p1 = pos + a.len();
        lemma_has_at_split(s, p1, b, enc_epic_entries(rest));
        assert(epic_encodable(head.1)) by {
            assert(es[0] == head);
        }
        lemma_sp_epic_at(s, p1, head.1);
        let p2 = p1 + b.len();
        assert forall|i: int| 0 <= i < rest.len() implies epic_encodable(
            (#[trigger] rest[i]).1,
        ) by {
            assert(rest[i] == es[i + 1]);
        }
        assert forall|i: int, j: int| 0 <= i < j < rest.len() implies (#[trigger] rest[i]).0 < (
        #[trigger] rest[j]).0 by {
            assert(rest[i] == es[i + 1]);
            assert(rest[j] == es[j + 1]);
        }
        assert forall|i: int| 0 <= i < rest.len() implies (head.0 as int) < (
        #[trigger] rest[i]).0 by {
            assert(rest[i] == es[i + 1]);
            assert(es[0].0 < es[i + 1].0);
        }
        lemma_sp_epic_entries_at(s, p2, rest, head.0 as int);
        assert(lo < es[0].0);
        assert(seq![(head.0, head.1)] + rest =~= es);
        assert(sp_epic_entries(s, pos, es.len() as int, lo) == Some(
            (es, pos + enc_epic_entries(es).len()),
        ));
    }
}

proof fn lemma_sp_story_entries_at(s: Seq<char>, pos: int, ss: Seq<(u32, StoryView)>, lo: int)
    requires
        has_at(s, pos, enc_story_entries(ss)),
        forall|i: int| 0 <= i < ss.len() ==> story_encodable((#[trigger] ss[i]).1),
        forall|i: int, j: int| 0 <= i < j < ss.len() ==> (#[trigger] ss[i]).0 < (#[trigger] ss[j]).0,
        forall|i: int| 0 <= i < ss.len() ==> lo < (#[trigger] ss[i]).0,
    ensures
        sp_story_entries(s, pos, ss.len() as int, lo) == Some(
            (ss, pos + enc_story_entries(ss).len()),
        ),
    decreases ss.len(),
{
    if ss.len() == 0 {
        assert(ss =~= Seq::<(u32, StoryView)>::empty());
    } else {
        let head = ss.first();
        let a = enc_num(head.0 as int);
        let b = enc_story(head.1);
        let rest = ss.drop_first();
        assert(enc_story_entries(ss) =~= a + (b + enc_story_entries(rest)));
        lemma_has_at_split(s, pos, a, b + enc_story_entries(rest));
        lemma_sp_num_at(s, pos, head.0);
        let p1 = pos + a.len();
        lemma_has_at_split(s, p1, b, enc_story_entries(rest));
        assert(story_encodable(head.1)) by {
            assert(ss[0] == head);
        }
        lemma_sp_story_at(s, p1, head.1);
        let p2 = p1 + b.len();
        assert forall|i: int| 0 <= i < rest.len() implies story_encodable(
            (#[trigger] rest[i]).1,
        ) by {
            assert(rest[i] == ss[i + 1]);
        }
        assert forall|i: int, j: int| 0 <= i < j < rest.len() implies (#[trigger] rest[i]).0 < (
        #[trigger] rest[j]).0 by {
            assert(rest[i] == ss[i + 1]);
            assert(rest[j] == ss[j + 1]);
        }
        assert forall|i: int| 0 <= i < rest.len() implies (head.0 as int) < (
        #[trigger] rest[i]).0 by {
            assert(rest[i] == ss[i + 1]);
            assert(ss[0].0 < ss[i + 1].0);
        }
        lemma_sp_story_entries_at(s, p2, rest, head.0 as int);
        assert(lo < ss[0].0);
        assert(seq![(head.0, head.1)] + rest =~= ss);
        assert(sp_story_entries(s, pos, ss.len() as int, lo) == Some(
            (ss, pos + enc_story_entries(ss).len()),
        ));
    }
}

/// Write a snapshot as text, declining one whose strings or collections
/// are too long for the format's numbers.
pub fn encode_db_checked(state: &DBState) -> (r: Option<String>)
    ensures
        match r {
            Some(t) => db_encodable(state.epics.entry_seq(), state.stories.entry_seq()) && t@
                == enc_db(state.last_item_id, state.epics.entry_seq(), state.stories.entry_seq()),
            None => !db_encodable(state.epics.entry_seq(), state.stories.entry_seq()),
        },
{
    let limit = u32::MAX as usize;
    let ecount = state.epics.len();
    let scount = state.stories.len();
    if ecount > limit || scount > limit {
        return None;
    }
    let mut i: usize = 0;
    while i < ecount
        invariant
            ecount == state.epics.entry_seq().len(),
            0 <= i <= ecount,
            limit == u32::MAX,
            forall|j: int|
                0 <= j < i ==> epic_encodable((#[trigger] state.epics.entry_seq()[j]).1),
        decreases ecount - i,
    {
        let e = state.epics.value_at(i);
        if e.name.as_str().unicode_len() > limit || e.description.as_str().unicode_len() > limit
            || e.stories.len() > limit {
            return None;
        }
        i += 1;
    }
    let mut j: usize = 0;
    while j < scount
        invariant
            scount == state.stories.entry_seq().len(),
            0 <= j <= scount,
            limit == u32::MAX,
            forall|k: int|
                0 <= k < j ==> story_encodable((#[trigger] state.stories.entry_seq()[k]).1),
        decreases scount - j,
    {
        let v = state.stories.value_at(j);
        if v.name.as_str().unicode_len() > limit || v.description.as_str().unicode_len() > limit {
            return None;
        }
        j += 1;
    }
    Some(encode_db(state))
}

/// A number reader: digits into a saturating accumulator until the
/// closing semicolon.
fn parse_num(s: &str, pos: usize) -> (r: Option<(u32, usize)>)
    requires
        pos <= s@.len(),
    ensures
        match r {
            Some((v, end)) => sp_num(s@, pos as int) == Some((v, end as int)) && pos < end
                <= s@.len(),
            None => sp_num(s@, pos as int) is None,
        },
{
    let n = s.unicode_len();
    if pos >= n {
        return None;
    }
    let c0 = s.get_char(pos);
    match crate::text::digit_of(c0) {
        None => {
            return None;
        },
        Some(_) => {},
    }
    if c0 == '0' && pos + 1 < n {
        if crate::text::digit_of(s.get_char(pos + 1)).is_some() {
            return None;
        }
    }
    let cap: u64 = 0x1_0000_0000;
    let mut i: usize = pos;
    let mut acc: u64 = 0;
    let ghost mut acc_spec: int = 0int;
    loop
        invariant
            pos <= i <= n,
            n == s@.len(),
            acc_spec >= 0,
            acc <= cap,
            cap == 0x1_0000_0000,
            (acc_spec <= u32::MAX && acc == acc_spec) || (acc_spec > u32::MAX && acc == cap),
            0 <= pos < s@.len(),
            is_dec_digit(s@[pos as int]),
            !(s@[pos as int] == '0' && pos + 1 < s@.len() && is_dec_digit(s@[pos + 1])),
            sp_digits(s@, pos as int, 0) == sp_digits(s@, i as int, acc_spec),
        decreases n - i,
    {
        if i >= n {
            return None;
        }
        let c = s.get_char(i);
        if c == ';' {
            if acc <= u32::MAX as u64 {
                return Some((acc as u32, i + 1));
            } else {
                return None;
            }
        }
        match crate::text::digit_of(c) {
            None => {
                return None;
            },
            Some(d) => {
                proof {
                    assert(c != ';');
                    acc_spec = acc_spec * 10 + char_digit(c);
                }
                acc = acc * 10 + d as u64;
                if acc > u32::MAX as u64 {
                    acc = cap;
                }
                i = i + 1;
            },
        }
    }
}

/// A string reader: the length, then that many characters verbatim.
fn parse_str(s: &str, pos: usize) -> (r: Option<(String, usize)>)
    requires
        pos <= s@.len(),
    ensures
        match r {
            Some((t, end)) => sp_str(s@, pos as int) == Some((t@, end as int)) && pos < end
                <= s@.len(),
            None => sp_str(s@, pos as int) is None,
        },
{
    match parse_num(s, pos) {
        None => None,
        Some((len32, p1)) => {
            let n = s.unicode_len();
            if len32 as usize <= n - p1 {
                let end = p1 + len32 as usize;
                let t = String::from_str(s.substring_char(p1, end));
                Some((t, end))
            } else {
                None
            }
        },
    }
}

/// A status reader: one letter.
fn parse_status(s: &str, pos: usize) -> (r: Option<(Status, usize)>)
    requires
        pos <= s@.len(),
    ensures
        match r {
            Some((st, end)) => sp_status(s@, pos as int) == Some((st, end as int)) && pos < end
                <= s@.len(),
            None => sp_status(s@, pos as int) is None,
        },
{
    if pos >= s.unicode_len() {
        return None;
    }
    let c = s.get_char(pos);
    if c == 'o' {
        Some((Status::Open, pos + 1))
    } else if c == 'i' {
        Some((Status::InProgress, pos + 1))
    } else if c == 'r' {
        Some((Status::Resolved, pos + 1))
    } else if c == 'c' {
        Some((Status::Closed, pos + 1))
    } else {
        None
    }
}

fn parse_story(s: &str, pos: usize) -> (r: Option<(Story, usize)>)
    requires
        pos <= s@.len(),
    ensures
        match r {
            Some((v, end)) => sp_story(s@, pos as int) == Some((v@, end as int)) && pos < end
                <= s@.len(),
            None => sp_story(s@, pos as int) is None,
        },
{
    match parse_str(s, pos) {
        None => None,
        Some((name, p1)) => match parse_str(s, p1) {
            None => None,
            Some((description, p2)) => match parse_status(s, p2) {
                None => None,
                Some((status, p3)) => Some((Story { name, description, status }, p3)),
            },
        },
    }
}

/// An id-list reader: a fixed number of number tokens.
fn parse_id_list(s: &str, pos: usize, count: u32) -> (r: Option<(Vec<u32>, usize)>)
    requires
        pos <= s@.len(),
    ensures
        match r {
            Some((l, end)) => sp_id_list(s@, pos as int, count as int) == Some(
                (l@, end as int),
            ) && pos <= end <= s@.len(),
            None => sp_id_list(s@, pos as int, count as int) is None,
        },
{
    let mut ids: Vec<u32> = Vec::new();
    let mut cur: usize = pos;
    let mut remaining: u32 = count;
    loop
        invariant
            pos <= cur <= s@.len(),
            match sp_id_list(s@, cur as int, remaining as int) {
                Some((rest, e)) => sp_id_list(s@, pos as int, count as int) == Some(
                    (ids@ + rest, e),
                ),
                None => sp_id_list(s@, pos as int, count as int) is None,
            },
        decreases remaining,
    {
        if remaining == 0 {
            proof {
                assert(sp_id_list(s@, cur as int, 0) == Some((Seq::<u32>::empty(), cur as int)));
                assert(ids@ + Seq::<u32>::empty() =~= ids@);
            }
            return Some((ids, cur));
        }
        match parse_num(s, cur) {
            None => {
                return None;
            },
            Some((id, nxt)) => {
                proof {
                    if sp_id_list(s@, nxt as int, remaining - 1) is Some {
                        let (rest2, e2) = sp_id_list(s@, nxt as int, remaining - 1)->Some_0;
                        assert(ids@ + (seq![id] + rest2) =~= ids@.push(id) + rest2);
                    }
                }
                ids.push(id);
                cur = nxt;
                remaining = remaining - 1;
            },
        }
    }
}

fn parse_epic(s: &str, pos: usize) -> (r: Option<(Epic, usize)>)
    requires
        pos <= s@.len(),
    ensures
        match r {
            Some((v, end)) => sp_epic(s@, pos as int) == Some((v@, end as int)) && pos < end
                <= s@.len(),
            None => sp_epic(s@, pos as int) is None,
        },
{
    match parse_str(s, pos) {
        None => None,
        Some((name, p1)) => match parse_str(s, p1) {
            None => None,
            Some((description, p2)) => match parse_status(s, p2) {
                None => None,
                Some((status, p3)) => match parse_num(s, p3) {
                    None => None,
                    Some((count, p4)) => match parse_id_list(s, p4, count) {
                        None => None,
                        Some((stories, p5)) => Some(
                            (Epic { name, description, status, stories }, p5),
                        ),
                    },
                },
            },
        },
    }
}

/// An epic-entries reader: a fixed number of id-epic pairs with strictly
/// rising ids.
fn parse_epic_entries(s: &str, pos: usize, count: u32) -> (r: Option<(IdMap<Epic>, usize)>)
    requires
        pos <= s@.len(),
    ensures
        match r {
            Some((m, end)) => sp_epic_entries(s@, pos as int, count as int, -1) == Some(
                (m.entry_seq(), end as int),
            ) && m.inv() && pos <= end <= s@.len(),
            None => sp_epic_entries(s@, pos as int, count as int, -1) is None,
        },
{
    let mut epics: IdMap<Epic> = IdMap::new();
    let mut cur: usize = pos;
    let mut remaining: u32 = count;
    let mut has_prev: bool = false;
    let mut prev: u32 = 0;
    loop
        invariant
            pos <= cur <= s@.len(),
            epics.inv(),
            has_prev ==> forall|j: int|
                0 <= j < epics.entry_seq().len() ==> (#[trigger] epics.entry_seq()[j]).0 <= prev,
            !has_prev ==> epics.entry_seq().len() == 0,
            ({
                let lo: int = if has_prev {
                    prev as int
                } else {
                    -1
                };
                match sp_epic_entries(s@, cur as int, remaining as int, lo) {
                    Some((rest, e)) => sp_epic_entries(s@, pos as int, count as int, -1) == Some(
                        (epics.entry_seq() + rest, e),
                    ),
                    None => sp_epic_entries(s@, pos as int, count as int, -1) is None,
                }
            }),
        decreases remaining,
    {
        let ghost lo: int = if has_prev {
            prev as int
        } else {
            -1
        };
        if remaining == 0 {
            proof {
                assert(sp_epic_entries(s@, cur as int, 0, lo) == Some(
                    (Seq::<(u32, EpicView)>::empty(), cur as int),
                ));
                assert(epics.entry_seq() + Seq::<(u32, EpicView)>::empty() =~= epics.entry_seq());
            }
            return Some((epics, cur));
        }
        match parse_num(s, cur) {
            None => {
                return None;
            },
            Some((id, q1)) => {
                if has_prev && id <= prev {
                    return None;
                }
                match parse_epic(s, q1) {
                    None => {
                        return None;
                    },
                    Some((epic, q2)) => {
                        proof {
                            assert(!(id as int <= lo));
                            if sp_epic_entries(s@, q2 as int, remaining - 1, id as int) is Some {
                                let (rest2, e2) = sp_epic_entries(
                                    s@,
                                    q2 as int,
                                    remaining - 1,
                                    id as int,
                                )->Some_0;
                                assert(epics.entry_seq() + (seq![(id, epic@)] + rest2)
                                    =~= epics.entry_seq().push((id, epic@)) + rest2);
                            }
                        }
                        epics.push_max(id, epic);
                        cur = q2;
                        remaining = remaining - 1;
                        has_prev = true;
                        prev = id;
                    },
                }
            },
        }
    }
}

/// A story-entries reader: a fixed number of id-story pairs with strictly
/// rising ids.
fn parse_story_entries(s: &str, pos: usize, count: u32) -> (r: Option<(IdMap<Story>, usize)>)
    requires
        pos <= s@.len(),
    ensures
        match r {
            Some((m, end)) => sp_story_entries(s@, pos as int, count as int, -1) == Some(
                (m.entry_seq(), end as int),
            ) && m.inv() && pos <= end <= s@.len(),
            None => sp_story_entries(s@, pos as int, count as int, -1) is None,
        },
{
    let mut stories: IdMap<Story> = IdMap::new();
    let mut cur: usize = pos;
    let mut remaining: u32 = count;
    let mut has_prev: bool = false;
    let mut prev: u32 = 0;
    loop
        invariant
            pos <= cur <= s@.len(),
            stories.inv(),
            has_prev ==> forall|j: int|
                0 <= j < stories.entry_seq().len() ==> (#[trigger] stories.entry_seq()[j]).0
                    <= prev,
            !has_prev ==> stories.entry_seq().len() == 0,
            ({
                let lo: int = if has_prev {
                    prev as int
                } else {
                    -1
                };
                match sp_story_entries(s@, cur as int, remaining as int, lo) {
                    Some((rest, e)) => sp_story_entries(s@, pos as int, count as int, -1) == Some(
                        (stories.entry_seq() + rest, e),
                    ),
                    None => sp_story_entries(s@, pos as int, count as int, -1) is None,
                }
            }),
        decreases remaining,
    {
        let ghost lo: int = if has_prev {
            prev as int
        } else {
            -1
        };
        if remaining == 0 {
            proof {
                assert(sp_story_entries(s@, cur as int, 0, lo) == Some(
                    (Seq::<(u32, StoryView)>::empty(), cur as int),
                ));
                assert(stories.entry_seq() + Seq::<(u32, StoryView)>::empty()
                    =~= stories.entry_seq());
            }
            return Some((stories, cur));
        }
        match parse_num(s, cur) {
            None => {
                return None;
            },
            Some((id, q1)) => {
                if has_prev && id <= prev {
                    return None;
                }
                match parse_story(s, q1) {
                    None => {
                        return None;
                    },
                    Some((story, q2)) => {
                        proof {
                            assert(!(id as int <= lo));
                            if sp_story_entries(s@, q2 as int, remaining - 1, id as int) is Some {
                                let (rest2, e2) = sp_story_entries(
                                    s@,
                                    q2 as int,
                                    remaining - 1,
                                    id as int,
                                )->Some_0;
                                assert(stories.entry_seq() + (seq![(id, story@)] + rest2)
                                    =~= stories.entry_seq().push((id, story@)) + rest2);
                            }
                        }
                        stories.push_max(id, story);
                        cur = q2;
                        remaining = remaining - 1;
                        has_prev = true;
                        prev = id;
                    },
                }
            },
        }
    }
}

/// Read a snapshot from text; anything that does not fit the format is a
/// read failure.
pub fn decode_db(s: &str) -> (r: Result<DBState, JiraDatabaseError>)
    ensures
        match r {
            Ok(st) => {
                &&& sp_db(s@) == Some(
                    (st.last_item_id, st.epics.entry_seq(), st.stories.entry_seq()),
                )
                &&& st.epics.inv()
                &&& st.stories.inv()
            },
            Err(e) => e == JiraDatabaseError::Read && sp_db(s@) is None,
        },
{
    let (last, p1) = match parse_num(s, 0) {
        None => {
            return Err(JiraDatabaseError::Read);
        },
        Some(x) => x,
    };
    let (ecount, p2) = match parse_num(s, p1) {
        None => {
            return Err(JiraDatabaseError::Read);
        },
        Some(x) => x,
    };
    let (epics, p3) = match parse_epic_entries(s, p2, ecount) {
        None => {
            return Err(JiraDatabaseError::Read);
        },
        Some(x) => x,
    };
    let (scount, p4) = match parse_num(s, p3) {
        None => {
            return Err(JiraDatabaseError::Read);
        },
        Some(x) => x,
    };
    let (stories, p5) = match parse_story_entries(s, p4, scount) {
        None => {
            return Err(JiraDatabaseError::Read);
        },
        Some(x) => x,
    };
    if p5 != s.unicode_len() {
        return Err(JiraDatabaseError::Read);
    }
    Ok(DBState { last_item_id: last, epics, stories })
}

/// Reading a written snapshot back yields exactly the snapshot: the
/// persisted form is lossless.
#[verifier::rlimit(100)]
pub proof fn lemma_codec_round_trip(last: u32, es: Seq<(u32, EpicView)>, ss: Seq<(u32, StoryView)>)
    requires
        db_encodable(es, ss),
        forall|i: int, j: int| 0 <= i < j < es.len() ==> (#[trigger] es[i]).0 < (#[trigger] es[j]).0,
        forall|i: int, j: int| 0 <= i < j < ss.len() ==> (#[trigger] ss[i]).0 < (#[trigger] ss[j]).0,
    ensures
        sp_db(enc_db(last, es, ss)) == Some((last, es, ss)),
{
    let s = enc_db(last, es, ss);
    let a = enc_num(last as int);
    let b = enc_num(es.len() as int);
    let c = enc_epic_entries(es);
    let d = enc_num(ss.len() as int);
    let e = enc_story_entries(ss);
    assert(s =~= a + (b + (c + (d + e))));
    assert(has_at(s, 0, a + (b + (c + (d + e))))) by {
        assert(s.subrange(0, s.len() as int) =~= s);
    }
    lemma_has_at_split(s, 0, a, b + (c + (d + e)));
    lemma_sp_num_at(s, 0, last);
    let p1 = a.len() as int;
    lemma_has_at_split(s, p1, b, c + (d + e));
    lemma_sp_num_at(s, p1, es.len() as u32);
    let p2 = p1 + b.len();
    lemma_has_at_split(s, p2, c, d + e);
    lemma_sp_epic_entries_at(s, p2, es, -1);
    let p3 = p2 + c.len();
    lemma_has_at_split(s, p3, d, e);
    lemma_sp_num_at(s, p3, ss.len() as u32);
    let p4 = p3 + d.len();
    lemma_sp_story_entries_at(s, p4, ss, -1);
    assert(p4 + e.len() == s.len());
}

} // verus!
