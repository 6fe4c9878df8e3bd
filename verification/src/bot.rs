//! The counting bot's decisions: which outgoing lines a frame provokes,
//! how the tally changes, and how `top`, `stat` and count texts are built.

use vstd::prelude::*;
use vstd::string::{StrSliceExecFns, StringExecFns};

use crate::counter::{spec_bump, spec_get, spec_total, tally_view, Counter};
use crate::frame::{Message, MessageChars, Prefix, PrefixChars};
use crate::strings::{dec_digits, pad2, str_eq, str_starts_with, u64_to_string, u64_to_string_pad2};

verus! {

/// The bot's configuration, as the surrounding program hands it over.
pub struct Settings {
    pub nick: String,
    pub server: String,
    pub channel: String,
    pub dbfile: String,
    pub count_words: Vec<String>,
    pub count_color: Option<u8>,
    pub count_unit: String,
    pub replacements: Vec<(String, String)>,
}

/// The colour code used for counts; absent means colour 0.
pub open spec fn spec_color(s: &Settings) -> u8 {
    match s.count_color {
        None => 0u8,
        Some(c) => c,
    }
}

/// The text value of the replacement table.
pub open spec fn reps_view(s: Seq<(String, String)>) -> Seq<(Seq<char>, Seq<char>)> {
    Seq::new(s.len(), |i: int| (s[i].0@, s[i].1@))
}

/// First replacement recorded for a nick, if any.
pub open spec fn spec_lookup(reps: Seq<(Seq<char>, Seq<char>)>, k: Seq<char>) -> Option<Seq<char>>
    decreases reps.len(),
{
    if reps.len() == 0 {
        None
    } else if reps[0].0 == k {
        Some(reps[0].1)
    } else {
        spec_lookup(reps.skip(1), k)
    }
}

/// The nick a message is credited to: its replacement when one is
/// configured, otherwise the nick itself.
pub open spec fn spec_realnick(reps: Seq<(Seq<char>, Seq<char>)>, nick: Seq<char>) -> Seq<char> {
    match spec_lookup(reps, nick) {
        Some(r) => r,
        None => nick,
    }
}

/// A count as chat text: the colour control code, the two-digit colour,
/// the count, the unit, and the closing control code.
pub open spec fn spec_count_text(color: u8, unit: Seq<char>, count: int) -> Seq<char> {
    "\u{3}"@ + pad2(color as int) + dec_digits(count) + unit + "\u{3}"@
}

/// The tally after crediting `rn` once for every configured count word
/// that `text` starts with.
pub open spec fn spec_after_counts(
    s: Seq<(Seq<char>, u64)>,
    rn: Seq<char>,
    text: Seq<char>,
    words: Seq<Seq<char>>,
) -> Seq<(Seq<char>, u64)>
    decreases words.len(),
{
    if words.len() == 0 {
        s
    } else {
        let s1 = if words[0].is_prefix_of(text) {
            spec_bump(s, rn)
        } else {
            s
        };
        spec_after_counts(s1, rn, text, words.skip(1))
    }
}

/// Whether any configured count word begins `text`, which is when the
/// tally changes and must be saved.
pub open spec fn spec_any_match(text: Seq<char>, words: Seq<Seq<char>>) -> bool {
    exists|i: int| 0 <= i < words.len() && (#[trigger] words[i]).is_prefix_of(text)
}

/// Leaderboard entries ordered by count, largest first; entries with equal
/// counts keep their first-seen order.
pub open spec fn spec_insert_desc(
    s: Seq<(Seq<char>, u64)>,
    x: (Seq<char>, u64),
) -> Seq<(Seq<char>, u64)>
    decreases s.len(),
{
    if s.len() == 0 {
        seq![x]
    } else if s[0].1 >= x.1 {
        seq![s[0]] + spec_insert_desc(s.skip(1), x)
    } else {
        seq![x] + s
    }
}

/// Stable sort by count, largest first.
pub open spec fn spec_sort_desc(s: Seq<(Seq<char>, u64)>) -> Seq<(Seq<char>, u64)>
    decreases s.len(),
{
    if s.len() == 0 {
        s
    } else {
        spec_insert_desc(spec_sort_desc(s.drop_last()), s.last())
    }
}

/// The colour number shown with each medal place.
pub open spec fn medal_color(place: int) -> u64 {
    if place == 1 {
        7u64
    } else if place == 2 {
        15u64
    } else if place == 3 {
        8u64
    } else {
        0u64
    }
}

/// The medal glyph shown with each place.
pub open spec fn medal_str(place: int) -> Seq<char> {
    if place == 1 {
        "\u{1F947}"@
    } else if place == 2 {
        "\u{1F948}"@
    } else if place == 3 {
        "\u{1F949}"@
    } else {
        "\u{1F41B}"@
    }
}

/// The leaderboard lines for the sorted tally `v`, from entry `i` up to
/// entry `k`, with the running place and the tie step `add`.
pub open spec fn spec_top_items(
    v: Seq<(Seq<char>, u64)>,
    i: int,
    k: int,
    place: int,
    add: int,
    color: u8,
    unit: Seq<char>,
) -> Seq<char>
    decreases k - i,
{
    if i < 0 || i >= k || k >= v.len() {
        Seq::empty()
    } else {
        let item = "\u{3}"@ + dec_digits(medal_color(place) as int) + medal_str(place) + "\u{3}"@
            + v[i].0 + " "@ + spec_count_text(color, unit, v[i].1 as int);
        let diff = v[i].1 != v[i + 1].1;
        if diff {
            item + spec_top_items(v, i + 1, k, place + add, add, color, unit)
        } else {
            item + spec_top_items(v, i + 1, k, place, add + 1, color, unit)
        }
    }
}

/// The whole `top` reply for a tally: the medal lines over the sorted
/// entries, then the grand total. The medal walk pairs each entry with the
/// one after it, so the sorted list's last entry never gets a medal line
/// of its own.
pub open spec fn spec_top_text(s: Seq<(Seq<char>, u64)>, color: u8, unit: Seq<char>) -> Seq<char> {
    let v = spec_sort_desc(s);
    let k = if v.len() == 0 {
        0int
    } else if v.len() - 1 < 3 {
        v.len() - 1
    } else {
        3int
    };
    spec_top_items(v, 0, k, 1, 1, color, unit) + ":: \u{2211}"@ + spec_count_text(
        color,
        unit,
        spec_total(v),
    )
}

/// The `stat` reply for one nick.
pub open spec fn spec_stat_text(
    s: Seq<(Seq<char>, u64)>,
    color: u8,
    unit: Seq<char>,
    nick: Seq<char>,
) -> Seq<char> {
    nick + ": "@ + spec_count_text(color, unit, spec_get(s, nick) as int)
}

/// The reply a chat text provokes, given the tally already updated.
pub open spec fn spec_reply(
    s: Seq<(Seq<char>, u64)>,
    color: u8,
    unit: Seq<char>,
    rn: Seq<char>,
    text: Seq<char>,
) -> Seq<char> {
    if text == "`top"@ {
        spec_top_text(s, color, unit)
    } else if text == "`stat"@ {
        spec_stat_text(s, color, unit, rn)
    } else if text == "`rules"@ {
        "\u{24B6}"@
    } else {
        Seq::empty()
    }
}

/// Inserting an entry adds exactly its count to the total.
proof fn lemma_insert_total(s: Seq<(Seq<char>, u64)>, x: (Seq<char>, u64))
    ensures
        spec_total(spec_insert_desc(s, x)) == spec_total(s) + x.1,
    decreases s.len(),
{
    if s.len() == 0 {
        assert(spec_insert_desc(s, x) == seq![x]);
        assert(seq![x].skip(1) =~= Seq::<(Seq<char>, u64)>::empty());
        assert(spec_total(Seq::<(Seq<char>, u64)>::empty()) == 0);
        assert(spec_total(seq![x]) == x.1 + spec_total(seq![x].skip(1)));
    } else if s[0].1 >= x.1 {
        lemma_insert_total(s.skip(1), x);
        let r = seq![s[0]] + spec_insert_desc(s.skip(1), x);
        assert(r.skip(1) =~= spec_insert_desc(s.skip(1), x));
        assert(r[0] == s[0]);
        assert(spec_total(r) == r[0].1 + spec_total(r.skip(1)));
    } else {
        let r = seq![x] + s;
        assert(r.skip(1) =~= s);
        assert(r[0] == x);
        assert(spec_total(r) == r[0].1 + spec_total(r.skip(1)));
    }
}

/// Sorting does not change the total.
proof fn lemma_sort_total(s: Seq<(Seq<char>, u64)>)
    ensures
        spec_total(spec_sort_desc(s)) == spec_total(s),
    decreases s.len(),
{
    if s.len() > 0 {
        lemma_sort_total(s.drop_last());
        lemma_insert_total(spec_sort_desc(s.drop_last()), s.last());
        lemma_total_snoc(s);
    }
}

/// The total splits off the last entry as well as the first.
proof fn lemma_total_snoc(s: Seq<(Seq<char>, u64)>)
    requires
        s.len() > 0,
    ensures
        spec_total(s) == spec_total(s.drop_last()) + s.last().1,
    decreases s.len(),
{
    if s.len() == 1 {
        assert(s.skip(1) =~= Seq::<(Seq<char>, u64)>::empty());
        assert(s.drop_last() =~= Seq::<(Seq<char>, u64)>::empty());
    } else {
        lemma_total_snoc(s.skip(1));
        assert(s.skip(1).drop_last() =~= s.drop_last().skip(1));
        assert(s.skip(1).last() == s.last());
        assert(s.drop_last()[0] == s[0]);
    }
}

/// Totals are never negative.
proof fn lemma_total_nonneg(s: Seq<(Seq<char>, u64)>)
    ensures
        spec_total(s) >= 0,
    decreases s.len(),
{
    if s.len() > 0 {
        lemma_total_nonneg(s.skip(1));
    }
}

/// No single count exceeds the total.
proof fn lemma_get_le_total(s: Seq<(Seq<char>, u64)>, k: Seq<char>)
    ensures
        spec_get(s, k) <= spec_total(s),
    decreases s.len(),
{
    if s.len() > 0 {
        lemma_total_nonneg(s.skip(1));
        lemma_get_le_total(s.skip(1), k);
    }
}

/// Bumping a key whose count has headroom raises the total by exactly one.
proof fn lemma_total_bump(s: Seq<(Seq<char>, u64)>, k: Seq<char>)
    requires
        spec_get(s, k) < u64::MAX,
    ensures
        spec_total(spec_bump(s, k)) == spec_total(s) + 1,
    decreases s.len(),
{
    if s.len() == 0 {
        let r = seq![(k, 1u64)];
        assert(r.skip(1) =~= Seq::<(Seq<char>, u64)>::empty());
        assert(spec_total(Seq::<(Seq<char>, u64)>::empty()) == 0);
        assert(spec_total(r) == r[0].1 + spec_total(r.skip(1)));
    } else if s[0].0 == k {
        let r = seq![(s[0].0, (s[0].1 + 1) as u64)] + s.skip(1);
        assert(r.skip(1) =~= s.skip(1));
        assert(r[0] == (s[0].0, (s[0].1 + 1) as u64));
        assert(spec_total(r) == r[0].1 + spec_total(r.skip(1)));
    } else {
        lemma_total_bump(s.skip(1), k);
        let r = seq![s[0]] + spec_bump(s.skip(1), k);
        assert(r.skip(1) =~= spec_bump(s.skip(1), k));
        assert(r[0] == s[0]);
        assert(spec_total(r) == r[0].1 + spec_total(r.skip(1)));
    }
}

/// Inserting at the first position whose count is smaller is what the
/// recursive insertion does.
proof fn lemma_insert_desc_at(s: Seq<(Seq<char>, u64)>, x: (Seq<char>, u64), j: int)
    requires
        0 <= j <= s.len(),
        forall|p: int| 0 <= p < j ==> (#[trigger] s[p]).1 >= x.1,
        j < s.len() ==> s[j].1 < x.1,
    ensures
        spec_insert_desc(s, x) == s.take(j) + seq![x] + s.skip(j),
    decreases j,
{
    if j == 0 {
        if s.len() == 0 {
            assert(s.take(0) + seq![x] + s.skip(0) =~= seq![x]);
        } else {
            assert(s[0].1 < x.1);
            assert(s.take(0) + seq![x] + s.skip(0) =~= seq![x] + s);
        }
    } else {
        assert(s[0].1 >= x.1);
        assert(forall|p: int| 0 <= p < j - 1 ==> (#[trigger] s.skip(1)[p]).1 >= x.1);
        lemma_insert_desc_at(s.skip(1), x, j - 1);
        assert(spec_insert_desc(s, x) == seq![s[0]] + spec_insert_desc(s.skip(1), x));
        assert(seq![s[0]] + (s.skip(1).take(j - 1) + seq![x] + s.skip(1).skip(j - 1)) =~= s.take(j)
            + seq![x] + s.skip(j));
    }
}

/// The `top` reply: up to three medal lines over the sorted tally, then
/// the grand total of every count.
#[verifier::rlimit(100)]
pub fn write_top(state: &Counter, settings: &Settings) -> (r: String)
    requires
        spec_total(state@) <= u64::MAX,
    ensures
        r@ == spec_top_text(state@, spec_color(settings), settings.count_unit@),
{
    let ghost sv = state@;
    let ghost color = spec_color(settings);
    let ghost unit = settings.count_unit@;
    let ghost v = spec_sort_desc(sv);
    // Sort by count, largest first; ties keep their first-seen order.
    let mut sorted: Vec<(String, u64)> = Vec::new();
    let ne = state.entries.len();
    let mut i: usize = 0;
    proof {
        assert(sv.take(0) =~= Seq::<(Seq<char>, u64)>::empty());
        assert(tally_view(sorted@) =~= spec_sort_desc(sv.take(0)));
    }
    while i < ne
        invariant
            i <= ne,
            ne == state@.len(),
            sv == state@,
            tally_view(sorted@) == spec_sort_desc(sv.take(i as int)),
        decreases ne - i,
    {
        let ghost tv = tally_view(sorted@);
        let key = state.entries[i].0.clone();
        let cnt = state.entries[i].1;
        proof {
            assert(key@ == sv[i as int].0);
            assert(cnt == sv[i as int].1);
        }
        let sn = sorted.len();
        let mut j: usize = 0;
        while j < sn && sorted[j].1 >= cnt
            invariant
                j <= sn,
                sn == sorted@.len(),
                tally_view(sorted@) == tv,
                forall|p: int| 0 <= p < j ==> (#[trigger] tv[p]).1 >= cnt,
            decreases sn - j,
        {
            proof {
                assert(tv[j as int].1 == sorted@[j as int].1);
            }
            j = j + 1;
        }
        proof {
            if j < sn {
                assert(tv[j as int].1 == sorted@[j as int].1);
            }
            lemma_insert_desc_at(tv, (key@, cnt), j as int);
        }
        sorted.insert(j, (key, cnt));
        proof {
            assert(tally_view(sorted@) =~= tv.take(j as int) + seq![(sv[i as int].0, sv[
                i as int].1)] + tv.skip(j as int));
            assert((sv[i as int].0, sv[i as int].1) == sv[i as int]);
            assert(sv.take(i as int + 1).drop_last() =~= sv.take(i as int));
            assert(sv.take(i as int + 1).last() == sv[i as int]);
            assert(tally_view(sorted@) == spec_sort_desc(sv.take(i as int + 1)));
        }
        i = i + 1;
    }
    proof {
        assert(sv.take(ne as int) =~= sv);
        assert(tally_view(sorted@) == v);
    }
    // The medal lines.
    let vlen = sorted.len();
    let k: usize = if vlen == 0 {
        0
    } else if vlen - 1 < 3 {
        vlen - 1
    } else {
        3
    };
    let mut out = String::new();
    let mut place: usize = 1;
    let mut add: usize = 1;
    let mut i2: usize = 0;
    while i2 < k
        invariant
            i2 <= k,
            k <= 3,
            k < vlen || (k == 0 && vlen == 0),
            vlen == sorted@.len(),
            tally_view(sorted@) == v,
            color == spec_color(settings),
            unit == settings.count_unit@,
            add >= 1,
            place >= 1,
            add <= i2 + 1,
            place <= 1 + 3 * i2,
            spec_top_items(v, 0, k as int, 1, 1, color, unit) == out@ + spec_top_items(
                v,
                i2 as int,
                k as int,
                place as int,
                add as int,
                color,
                unit,
            ),
        decreases k - i2,
    {
        let (mcolor, mglyph): (u64, &str) = if place == 1 {
            (7, "\u{1F947}")
        } else if place == 2 {
            (15, "\u{1F948}")
        } else if place == 3 {
            (8, "\u{1F949}")
        } else {
            (0, "\u{1F41B}")
        };
        out.append("\u{3}");
        out.append(u64_to_string(mcolor).as_str());
        out.append(mglyph);
        out.append("\u{3}");
        out.append(sorted[i2].0.as_str());
        out.append(" ");
        out.append(write_count(settings, sorted[i2].1).as_str());
        proof {
            assert(v[i2 as int].0 == sorted@[i2 as int].0@);
            assert(v[i2 as int].1 == sorted@[i2 as int].1);
            assert(mcolor == medal_color(place as int));
            assert(mglyph@ == medal_str(place as int));
        }
        let diff = sorted[i2].1 != sorted[i2 + 1].1;
        proof {
            assert(v[i2 as int + 1].1 == sorted@[i2 as int + 1].1);
            assert(diff == (v[i2 as int].1 != v[i2 as int + 1].1));
        }
        if diff {
            place = place + add;
        } else {
            add = add + 1;
        }
        i2 = i2 + 1;
    }
    proof {
        assert(spec_top_items(v, k as int, k as int, place as int, add as int, color, unit)
            == Seq::<char>::empty());
        assert(out@ + Seq::<char>::empty() =~= out@);
    }
    // The grand total over every entry, printed after the medal lines.
    let mut total: u64 = 0;
    let mut i3: usize = 0;
    proof {
        assert(v.skip(0) =~= v);
        lemma_sort_total(sv);
    }
    while i3 < vlen
        invariant
            i3 <= vlen,
            vlen == sorted@.len(),
            tally_view(sorted@) == v,
            spec_total(v) <= u64::MAX,
            spec_total(v) == total + spec_total(v.skip(i3 as int)),
        decreases vlen - i3,
    {
        proof {
            assert(v.skip(i3 as int)[0] == v[i3 as int]);
            assert(v.skip(i3 as int).skip(1) =~= v.skip(i3 as int + 1));
            assert(v[i3 as int].1 == sorted@[i3 as int].1);
            lemma_total_nonneg(v.skip(i3 as int + 1));
        }
        total = total + sorted[i3].1;
        i3 = i3 + 1;
    }
    proof {
        assert(v.skip(vlen as int) =~= Seq::<(Seq<char>, u64)>::empty());
    }
    out.append(":: \u{2211}");
    out.append(write_count(settings, total).as_str());
    out
}

/// A count as chat text, coloured and with the configured unit appended.
pub fn write_count(settings: &Settings, count: u64) -> (r: String)
    ensures
        r@ == spec_count_text(spec_color(settings), settings.count_unit@, count as int),
{
    let color: u64 = match settings.count_color {
        Some(c) => c as u64,
        None => 0,
    };
    let mut out = String::from_str("\u{3}");
    out.append(u64_to_string_pad2(color).as_str());
    out.append(u64_to_string(count).as_str());
    out.append(settings.count_unit.as_str());
    out.append("\u{3}");
    out
}

/// The `stat` reply: a nick and its recorded count.
pub fn write_stat(state: &Counter, settings: &Settings, nick: &str) -> (r: String)
    ensures
        r@ == spec_stat_text(state@, spec_color(settings), settings.count_unit@, nick@),
{
    let mut out = nick.to_owned();
    out.append(": ");
    out.append(write_count(settings, state.get(nick)).as_str());
    out
}

/// The nick a message is credited to, after applying the replacement table.
fn lookup_replacement(settings: &Settings, nick: &str) -> (r: String)
    ensures
        r@ == spec_realnick(reps_view(settings.replacements@), nick@),
{
    let ghost reps = reps_view(settings.replacements@);
    let n = settings.replacements.len();
    let mut i: usize = 0;
    proof {
        assert(reps.skip(0) =~= reps);
    }
    while i < n
        invariant
            i <= n,
            n == reps.len(),
            reps == reps_view(settings.replacements@),
            spec_lookup(reps, nick@) == spec_lookup(reps.skip(i as int), nick@),
        decreases n - i,
    {
        proof {
            assert(reps.skip(i as int)[0] == reps[i as int]);
            assert(reps.skip(i as int).skip(1) =~= reps.skip(i as int + 1));
        }
        if str_eq(settings.replacements[i].0.as_str(), nick) {
            proof {
                assert(reps[i as int].0 == nick@);
            }
            return settings.replacements[i].1.clone();
        }
        i = i + 1;
    }
    proof {
        assert(reps.skip(n as int) =~= Seq::<(Seq<char>, Seq<char>)>::empty());
    }
    nick.to_owned()
}

/// One chat text from one sender: credits the sender's tally for every
/// configured count word the text starts with, then builds the reply the
/// text asks for. The second result says whether the tally changed and so
/// must be persisted.
pub fn handle_message(state: &mut Counter, settings: &Settings, nick: &str, text: &str) -> (out: (
    String,
    bool,
))
    requires
        old(state).wf(),
        spec_total(old(state)@) + settings.count_words@.len() <= u64::MAX,
    ensures
        final(state).wf(),
        final(state)@ == spec_after_counts(
            old(state)@,
            spec_realnick(reps_view(settings.replacements@), nick@),
            text@,
            settings.count_words.deep_view(),
        ),
        out.0@ == spec_reply(
            final(state)@,
            spec_color(settings),
            settings.count_unit@,
            spec_realnick(reps_view(settings.replacements@), nick@),
            text@,
        ),
        out.1 == spec_any_match(text@, settings.count_words.deep_view()),
{
    let ghost words = settings.count_words.deep_view();
    let ghost rn0 = spec_realnick(reps_view(settings.replacements@), nick@);
    let ghost orig = state@;
    let rn = lookup_replacement(settings, nick);
    let nw = settings.count_words.len();
    let mut saved = false;
    let mut i: usize = 0;
    proof {
        assert(words.skip(0) =~= words);
        assert(words.take(0) =~= Seq::<Seq<char>>::empty());
        assert(!spec_any_match(text@, words.take(0)));
    }
    while i < nw
        invariant
            i <= nw,
            nw == words.len(),
            words == settings.count_words.deep_view(),
            rn@ == rn0,
            state.wf(),
            spec_total(orig) + nw <= u64::MAX,
            spec_total(state@) <= spec_total(orig) + i,
            spec_after_counts(orig, rn0, text@, words) == spec_after_counts(
                state@,
                rn0,
                text@,
                words.skip(i as int),
            ),
            saved == spec_any_match(text@, words.take(i as int)),
        decreases nw - i,
    {
        let ghost before = state@;
        proof {
            assert(words.skip(i as int)[0] == words[i as int]);
            assert(words.skip(i as int).skip(1) =~= words.skip(i as int + 1));
            assert(words[i as int] == settings.count_words@[i as int]@);
            assert(words.take(i as int).push(words[i as int]) =~= words.take(i as int + 1));
        }
        if str_starts_with(text, settings.count_words[i].as_str()) {
            proof {
                lemma_get_le_total(state@, rn0);
                lemma_total_nonneg(state@);
                assert(spec_get(state@, rn0) < u64::MAX);
            }
            state.bump(rn.as_str());
            saved = true;
            proof {
                lemma_total_bump(before, rn0);
                assert(words.take(i as int + 1)[i as int] == words[i as int]);
                assert((words.take(i as int + 1)[i as int]).is_prefix_of(text@));
                assert(spec_any_match(text@, words.take(i as int + 1)));
            }
        } else {
            proof {
                assert forall|jx: int|
                    0 <= jx < i + 1 && (#[trigger] words.take(i as int + 1)[jx]).is_prefix_of(
                        text@,
                    ) implies spec_any_match(text@, words.take(i as int)) by {
                    assert(jx < i);
                    assert(words.take(i as int)[jx] == words.take(i as int + 1)[jx]);
                }
            }
        }
        i = i + 1;
    }
    proof {
        assert(words.skip(nw as int) =~= Seq::<Seq<char>>::empty());
        assert(words.take(nw as int) =~= words);
    }
    let reply: String = if str_eq(text, "`top") {
        proof {
            lemma_total_nonneg(state@);
        }
        write_top(state, settings)
    } else if str_eq(text, "`stat") {
        write_stat(state, settings, rn.as_str())
    } else if str_eq(text, "`rules") {
        ("\u{24B6}").to_owned()
    } else {
        String::new()
    };
    (reply, saved)
}

/// The text the chat carried: the trailing parameter, or nothing.
pub open spec fn spec_trail(mc: MessageChars) -> Seq<char> {
    match mc.trailing {
        Some(t) => t,
        None => Seq::empty(),
    }
}

/// The reply owed to the server when a frame is a PING.
pub open spec fn spec_pong(mc: MessageChars) -> Seq<char> {
    if mc.command == "PING"@ {
        "PONG :"@ + spec_trail(mc) + "\r\n"@
    } else {
        Seq::empty()
    }
}

/// The sender nick of a frame that carries a user prefix.
pub open spec fn spec_user_nick(mc: MessageChars) -> Option<Seq<char>> {
    match mc.prefix {
        Some(PrefixChars::User { nick, user, host }) => Some(nick),
        _ => None,
    }
}

/// The lines the bot queues for one inbound frame: a PONG when the frame
/// is a PING, and a channel message when a user-prefixed frame earns a
/// non-empty reply.
pub open spec fn spec_frame_out(
    mc: MessageChars,
    s: Seq<(Seq<char>, u64)>,
    settings: &Settings,
) -> Seq<char> {
    spec_pong(mc) + (match spec_user_nick(mc) {
        Some(nk) => {
            let rn = spec_realnick(reps_view(settings.replacements@), nk);
            let reply = spec_reply(
                s,
                spec_color(settings),
                settings.count_unit@,
                rn,
                spec_trail(mc),
            );
            if reply.len() > 0 {
                "PRIVMSG "@ + settings.channel@ + " :"@ + reply + "\r\n"@
            } else {
                Seq::empty()
            }
        },
        None => Seq::empty(),
    })
}

/// The tally after one inbound frame.
pub open spec fn spec_frame_state(
    mc: MessageChars,
    s: Seq<(Seq<char>, u64)>,
    settings: &Settings,
) -> Seq<(Seq<char>, u64)> {
    match spec_user_nick(mc) {
        Some(nk) => spec_after_counts(
            s,
            spec_realnick(reps_view(settings.replacements@), nk),
            spec_trail(mc),
            settings.count_words.deep_view(),
        ),
        None => s,
    }
}

/// Everything the bot decides for one decoded frame: the outgoing bytes to
/// queue, the updated tally, and whether the tally must be persisted.
pub fn on_frame(msg: &Message, state: &mut Counter, settings: &Settings) -> (out: (String, bool))
    requires
        old(state).wf(),
        spec_total(old(state)@) + settings.count_words@.len() <= u64::MAX,
    ensures
        final(state).wf(),
        final(state)@ == spec_frame_state(msg@, old(state)@, settings),
        out.0@ == spec_frame_out(msg@, final(state)@, settings),
        out.1 == (spec_user_nick(msg@) is Some && spec_any_match(
            spec_trail(msg@),
            settings.count_words.deep_view(),
        )),
{
    let mut outs = String::new();
    if str_eq(msg.command.as_str(), "PING") {
        outs.append("PONG :");
        match &msg.trailing {
            Some(t) => {
                outs.append(t.as_str());
            },
            None => {
                proof {
                    reveal_strlit("");
                    assert(""@ =~= Seq::<char>::empty());
                }
            },
        }
        outs.append("\r\n");
    } else {
        proof {
            assert(outs@ =~= spec_pong(msg@));
        }
    }
    proof {
        assert(outs@ =~= spec_pong(msg@));
    }
    let mut save = false;
    match &msg.prefix {
        Some(Prefix::User { nick, user, host }) => {
            let trail: &str = match &msg.trailing {
                Some(t) => t.as_str(),
                None => "",
            };
            proof {
                reveal_strlit("");
                assert(""@ =~= Seq::<char>::empty());
                assert(trail@ == spec_trail(msg@));
            }
            let r = handle_message(state, settings, nick.as_str(), trail);
            let reply = r.0;
            save = r.1;
            if reply.as_str().unicode_len() > 0 {
                outs.append("PRIVMSG ");
                outs.append(settings.channel.as_str());
                outs.append(" :");
                outs.append(reply.as_str());
                outs.append("\r\n");
            } else {
                proof {
                    assert(reply@ =~= Seq::<char>::empty());
                }
            }
        },
        _ => {},
    }
    (outs, save)
}

/// The three lines the bot sends as soon as the connection opens.
pub open spec fn spec_greeting(nick: Seq<char>, chan: Seq<char>) -> Seq<char> {
    "NICK "@ + nick + "\r\nUSER "@ + nick + " 0 * :CounterBot\r\nJOIN "@ + chan + "\r\n"@
}

/// The connection greeting: pick the nick, register the user, join the
/// channel.
pub fn greeting(nick: &str, chan: &str) -> (r: String)
    ensures
        r@ == spec_greeting(nick@, chan@),
{
    let mut out = String::from_str("NICK ");
    out.append(nick);
    out.append("\r\nUSER ");
    out.append(nick);
    out.append(" 0 * :CounterBot\r\nJOIN ");
    out.append(chan);
    out.append("\r\n");
    out
}

} // verus!
