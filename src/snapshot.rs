use vstd::prelude::*;
use vstd::string::*;

use crate::attacker::{AttackerState, AttackerView};
use crate::aworset::{tag_sets, AWORSet, AWORSetView, TagView};
use crate::gset::GSet;
use crate::keymap::{
    entries_view, lemma_listing, lemma_listing_unique, lemma_pairs_index, lemma_view_entry,
    listing, pairs_view, sorted_keys, sorted_views, viewed, KeyMap,
};
use crate::lww::{LWWMap, LWWRegister};
use crate::order::Tag;
use crate::state::{MayaState, MayaView};

verus! {

pub open spec fn hex_digit(d: u32) -> Seq<char> {
    "0123456789abcdef"@.subrange(d as int, d as int + 1)
}

pub open spec fn dec_digit(d: nat) -> Seq<char> {
    "0123456789"@.subrange(d as int, d as int + 1)
}

/// How one character stands inside a JSON string: quote, backslash and
/// control characters escaped, everything else as it is.
pub open spec fn escape_char(c: char) -> Seq<char> {
    if c == '"' {
        "\\\""@
    } else if c == '\\' {
        "\\\\"@
    } else if c == '\u{8}' {
        "\\b"@
    } else if c == '\u{c}' {
        "\\f"@
    } else if c == '\n' {
        "\\n"@
    } else if c == '\r' {
        "\\r"@
    } else if c == '\t' {
        "\\t"@
    } else if (c as u32) < 32 {
        "\\u00"@ + hex_digit((c as u32) / 16) + hex_digit((c as u32) % 16)
    } else {
        seq![c]
    }
}

pub open spec fn escaped(s: Seq<char>) -> Seq<char>
    decreases s.len(),
{
    if s.len() == 0 {
        Seq::empty()
    } else {
        escaped(s.drop_last()) + escape_char(s.last())
    }
}

/// A JSON string literal.
pub open spec fn json_string(s: Seq<char>) -> Seq<char> {
    "\""@ + escaped(s) + "\""@
}

/// Decimal digits, without leading zeros.
pub open spec fn decimal(n: nat) -> Seq<char>
    decreases n,
{
    if n < 10 {
        dec_digit(n)
    } else {
        decimal(n / 10) + dec_digit(n % 10)
    }
}

/// The items `f` gives for `t`, separated by commas.
pub open spec fn comma_list<A>(t: Seq<A>, f: spec_fn(A) -> Seq<char>) -> Seq<char>
    decreases t.len(),
{
    if t.len() == 0 {
        Seq::empty()
    } else if t.len() == 1 {
        f(t[0])
    } else {
        comma_list(t.drop_last(), f) + ","@ + f(t.last())
    }
}

pub(crate) fn hex_digit_str(d: u32) -> (r: &'static str)
    requires
        d < 16,
    ensures
        r@ == hex_digit(d),
{
    proof {
        reveal_strlit("0123456789abcdef");
    }
    "0123456789abcdef".substring_char(d as usize, d as usize + 1)
}

pub fn write_string(out: &mut String, s: &str)
    ensures
        final(out)@ == old(out)@ + json_string(s@),
{
    let ghost start = out@;
    out.append("\"");
    let n = s.unicode_len();
    let mut i: usize = 0;
    while i < n
        invariant
            n == s@.len(),
            i <= n,
            out@ == start + "\""@ + escaped(s@.take(i as int)),
        decreases n - i,
    {
        let c = s.get_char(i);
        let ghost before = out@;
        if c == '"' {
            out.append("\\\"");
        } else if c == '\\' {
            out.append("\\\\");
        } else if c == '\u{8}' {
            out.append("\\b");
        } else if c == '\u{c}' {
            out.append("\\f");
        } else if c == '\n' {
            out.append("\\n");
        } else if c == '\r' {
            out.append("\\r");
        } else if c == '\t' {
            out.append("\\t");
        } else if (c as u32) < 32 {
            out.append("\\u00");
            out.append(hex_digit_str((c as u32) / 16));
            out.append(hex_digit_str((c as u32) % 16));
        } else {
            out.append(s.substring_char(i, i + 1));
            assert(s@.subrange(i as int, i + 1) =~= seq![c]);
        }
        assert(out@ == before + escape_char(c));
        assert(s@.take(i + 1).drop_last() =~= s@.take(i as int));
        i = i + 1;
    }
    assert(s@.take(n as int) =~= s@);
    out.append("\"");
}

pub fn write_u64(out: &mut String, n: u64)
    ensures
        final(out)@ == old(out)@ + decimal(n as nat),
    decreases n,
{
    if n >= 10 {
        write_u64(out, n / 10);
    }
    proof {
        reveal_strlit("0123456789");
    }
    let d = (n % 10) as usize;
    out.append("0123456789".substring_char(d, d + 1));
}

/// A set as a map to unit, the form its listing takes.
pub open spec fn unit_map<KV>(s: Set<KV>) -> Map<KV, ()> {
    Map::new(|k: KV| s.contains(k), |k: KV| ())
}

pub open spec fn keys_json(t: Seq<(Seq<char>, ())>) -> Seq<char> {
    comma_list(t, |e: (Seq<char>, ())| json_string(e.0))
}

pub open spec fn gset_json(s: Set<Seq<char>>) -> Seq<char> {
    "{\"elements\":["@ + keys_json(listing::<String, ()>(unit_map(s))) + "]}"@
}

pub open spec fn tag_json(t: TagView) -> Seq<char> {
    "["@ + json_string(t.0) + ","@ + decimal(t.1 as nat) + "]"@
}

pub open spec fn tags_json(t: Seq<(TagView, ())>) -> Seq<char> {
    comma_list(t, |e: (TagView, ())| tag_json(e.0))
}

pub open spec fn tag_set_json(s: Set<TagView>) -> Seq<char> {
    "["@ + tags_json(listing::<Tag, ()>(unit_map(s))) + "]"@
}

pub open spec fn stamped_json(e: (Seq<char>, u64, Seq<char>)) -> Seq<char> {
    "["@ + json_string(e.0) + ","@ + decimal(e.1 as nat) + ","@ + json_string(e.2) + "]"@
}

pub open spec fn entries_json(t: Seq<(Seq<char>, (Seq<char>, u64, Seq<char>))>) -> Seq<char> {
    comma_list(
        t,
        |e: (Seq<char>, (Seq<char>, u64, Seq<char>))| json_string(e.0) + ":"@ + stamped_json(e.1),
    )
}

pub open spec fn lww_map_json(m: Map<Seq<char>, (Seq<char>, u64, Seq<char>)>) -> Seq<char> {
    "{\"entries\":{"@ + entries_json(listing::<String, (Seq<char>, u64, Seq<char>)>(m)) + "}}"@
}

pub open spec fn option_json(v: Option<Seq<char>>) -> Seq<char> {
    match v {
        Some(s) => json_string(s),
        None => "null"@,
    }
}

pub open spec fn register_json(r: (Option<Seq<char>>, u64, Seq<char>)) -> Seq<char> {
    "{\"value\":"@ + option_json(r.0) + ",\"ts\":"@ + decimal(r.1 as nat) + ",\"node\":"@
        + json_string(r.2) + "}"@
}

#[verifier::opaque]
pub open spec fn attacker_json(a: AttackerView) -> Seq<char> {
    "{\"visited_decoys\":"@ + gset_json(a.visited) + ",\"actions_per_decoy\":"@ + lww_map_json(
        a.actions,
    ) + ",\"location\":"@ + register_json(a.location) + "}"@
}

pub open spec fn attackers_json(t: Seq<(Seq<char>, AttackerView)>) -> Seq<char> {
    comma_list(t, |e: (Seq<char>, AttackerView)| json_string(e.0) + ":"@ + attacker_json(e.1))
}

pub open spec fn adds_json(t: Seq<(Seq<char>, Set<TagView>)>) -> Seq<char> {
    comma_list(t, |e: (Seq<char>, Set<TagView>)| json_string(e.0) + ":"@ + tag_set_json(e.1))
}

pub open spec fn aworset_json(a: AWORSetView) -> Seq<char> {
    "{\"adds\":{"@ + adds_json(listing::<String, Set<TagView>>(a.adds)) + "},\"removes\":"@
        + tag_set_json(a.removes) + "}"@
}

/// The snapshot document of a replica state, as JSON text with every map
/// and set listed in increasing key order.
pub open spec fn state_json(s: MayaView) -> Seq<char> {
    "{\"node_id\":"@ + json_string(s.node_id) + ",\"clock\":{\"counter\":"@ + decimal(
        s.counter as nat,
    ) + ",\"node_id\":"@ + json_string(s.clock_node) + "},\"attackers\":{"@ + attackers_json(
        listing::<String, AttackerView>(s.attackers),
    ) + "},\"stolen_creds\":"@ + aworset_json(s.creds) + ",\"active_sessions\":"@
        + lww_map_json(s.sessions) + "}"@
}

fn write_keys(out: &mut String, m: &KeyMap<String, ()>)
    ensures
        final(out)@ == old(out)@ + keys_json(viewed(m.seq())),
{
    let ghost start = out@;
    let ghost t = viewed(m.seq());
    let n = m.len();
    let mut i: usize = 0;
    while i < n
        invariant
            n == m.seq().len(),
            t == viewed(m.seq()),
            i <= n,
            out@ == start + keys_json(t.take(i as int)),
        decreases n - i,
    {
        let ghost before = out@;
        if i > 0 {
            out.append(",");
        }
        write_string(out, m.entry(i).0.as_str());
        assert(t.take(i + 1).drop_last() =~= t.take(i as int));
        assert(out@ =~= start + keys_json(t.take(i + 1)));
        i = i + 1;
    }
    assert(t.take(n as int) =~= t);
}

fn write_gset(out: &mut String, g: &GSet)
    ensures
        final(out)@ == old(out)@ + gset_json(g@),
{
    proof {
        use_type_invariant(&g.elements);
        g.elements.lemma_sorted();
        lemma_listing(g.elements.seq());
        assert(unit_map(g@) =~= g.elements@);
    }
    let ghost start = out@;
    out.append("{\"elements\":[");
    write_keys(out, &g.elements);
    out.append("]}");
    assert(out@ =~= start + gset_json(g@));
}

fn write_tag(out: &mut String, t: &Tag)
    ensures
        final(out)@ == old(out)@ + tag_json(t@),
{
    let ghost start = out@;
    out.append("[");
    write_string(out, t.0.as_str());
    out.append(",");
    write_u64(out, t.1);
    out.append("]");
    assert(out@ =~= start + tag_json(t@));
}

fn write_tag_set(out: &mut String, m: &KeyMap<Tag, ()>)
    ensures
        final(out)@ == old(out)@ + tag_set_json(m@.dom()),
{
    proof {
        use_type_invariant(m);
        m.lemma_sorted();
        lemma_listing(m.seq());
        assert(unit_map(m@.dom()) =~= m@);
    }
    let ghost start = out@;
    let ghost t = viewed(m.seq());
    out.append("[");
    let n = m.len();
    let mut i: usize = 0;
    while i < n
        invariant
            n == m.seq().len(),
            t == viewed(m.seq()),
            i <= n,
            out@ == start + "["@ + tags_json(t.take(i as int)),
        decreases n - i,
    {
        if i > 0 {
            out.append(",");
        }
        write_tag(out, &m.entry(i).0);
        assert(t.take(i + 1).drop_last() =~= t.take(i as int));
        assert(out@ =~= start + "["@ + tags_json(t.take(i + 1)));
        i = i + 1;
    }
    assert(t.take(n as int) =~= t);
    out.append("]");
    assert(out@ =~= start + tag_set_json(m@.dom()));
}

fn write_stamped(out: &mut String, e: &(String, u64, String))
    ensures
        final(out)@ == old(out)@ + stamped_json(e@),
{
    let ghost start = out@;
    out.append("[");
    write_string(out, e.0.as_str());
    out.append(",");
    write_u64(out, e.1);
    out.append(",");
    write_string(out, e.2.as_str());
    out.append("]");
    assert(out@ =~= start + stamped_json(e@));
}

fn write_lww_map(out: &mut String, m: &LWWMap<String>)
    ensures
        final(out)@ == old(out)@ + lww_map_json(m@),
{
    proof {
        use_type_invariant(&m.entries);
        m.entries.lemma_sorted();
        lemma_listing(m.entries.seq());
    }
    let ghost start = out@;
    let ghost t = viewed(m.entries.seq());
    out.append("{\"entries\":{");
    let n = m.entries.len();
    let mut i: usize = 0;
    while i < n
        invariant
            n == m.entries.seq().len(),
            t == viewed(m.entries.seq()),
            i <= n,
            out@ == start + "{\"entries\":{"@ + entries_json(t.take(i as int)),
        decreases n - i,
    {
        if i > 0 {
            out.append(",");
        }
        let e = m.entries.entry(i);
        let ghost mid = out@;
        write_string(out, e.0.as_str());
        out.append(":");
        write_stamped(out, &e.1);
        assert(out@ =~= mid + json_string(t[i as int].0) + ":"@ + stamped_json(t[i as int].1));
        assert(t.take(i + 1).drop_last() =~= t.take(i as int));
        assert(out@ =~= start + "{\"entries\":{"@ + entries_json(t.take(i + 1)));
        i = i + 1;
    }
    assert(t.take(n as int) =~= t);
    out.append("}}");
    assert(out@ =~= start + lww_map_json(m@));
}

fn write_register(out: &mut String, r: &LWWRegister<String>)
    ensures
        final(out)@ == old(out)@ + register_json(r@),
{
    let ghost start = out@;
    out.append("{\"value\":");
    match &r.value {
        Some(v) => write_string(out, v.as_str()),
        None => out.append("null"),
    }
    out.append(",\"ts\":");
    write_u64(out, r.ts);
    out.append(",\"node\":");
    write_string(out, r.node.as_str());
    out.append("}");
    assert(out@ =~= start + register_json(r@));
}

fn write_attacker(out: &mut String, a: &AttackerState)
    ensures
        final(out)@ == old(out)@ + attacker_json(a@),
{
    let ghost start = out@;
    out.append("{\"visited_decoys\":");
    write_gset(out, &a.visited_decoys);
    out.append(",\"actions_per_decoy\":");
    write_lww_map(out, &a.actions_per_decoy);
    out.append(",\"location\":");
    write_register(out, &a.location);
    out.append("}");
    reveal(attacker_json);
    assert(out@ =~= start + attacker_json(a@));
}

fn write_attackers(out: &mut String, m: &KeyMap<String, AttackerState>)
    ensures
        final(out)@ == old(out)@ + attackers_json(listing::<String, AttackerView>(m@)),
{
    proof {
        use_type_invariant(m);
        m.lemma_sorted();
        lemma_listing(m.seq());
    }
    let ghost start = out@;
    let ghost t = viewed(m.seq());
    let n = m.len();
    let mut i: usize = 0;
    while i < n
        invariant
            n == m.seq().len(),
            t == viewed(m.seq()),
            i <= n,
            out@ == start + attackers_json(t.take(i as int)),
        decreases n - i,
    {
        if i > 0 {
            out.append(",");
        }
        let e = m.entry(i);
        let ghost mid = out@;
        write_string(out, e.0.as_str());
        out.append(":");
        write_attacker(out, &e.1);
        assert(out@ =~= mid + json_string(t[i as int].0) + ":"@ + attacker_json(t[i as int].1));
        assert(t.take(i + 1).drop_last() =~= t.take(i as int));
        assert(out@ =~= start + attackers_json(t.take(i + 1)));
        i = i + 1;
    }
    assert(t.take(n as int) =~= t);
}

/// The listing of the adds of an add-wins set, read off its sorted entries.
proof fn lemma_adds_listing(s: Seq<(String, KeyMap<Tag, ()>)>)
    requires
        sorted_keys(s),
    ensures
        listing::<String, Set<TagView>>(tag_sets(entries_view(s))) == Seq::new(
            s.len(),
            |i: int| (s[i].0@, s[i].1@.dom()),
        ),
{
    let t = Seq::new(s.len(), |i: int| (s[i].0@, s[i].1@.dom()));
    let m = tag_sets(entries_view(s));
    assert(sorted_views::<String, Set<TagView>>(t));
    assert forall|k: Seq<char>| #[trigger] pairs_view(t).contains_key(k) implies m.contains_key(k)
        && pairs_view(t)[k] == m[k] by {
        let i = choose|i: int| 0 <= i < t.len() && t[i].0 == k;
        lemma_pairs_index::<String, Set<TagView>>(t, i);
        lemma_view_entry(s, i);
    }
    assert forall|k: Seq<char>| #[trigger] m.contains_key(k) implies pairs_view(t).contains_key(k) by {
        let i = choose|i: int| 0 <= i < s.len() && s[i].0@ == k;
        assert(t[i].0 == k);
    }
    assert(pairs_view(t) =~= m);
    lemma_listing_unique::<String, Set<TagView>>(listing::<String, Set<TagView>>(m), t);
}

fn write_aworset(out: &mut String, a: &AWORSet)
    ensures
        final(out)@ == old(out)@ + aworset_json(a@),
{
    proof {
        use_type_invariant(&a.adds);
        a.adds.lemma_sorted();
        lemma_adds_listing(a.adds.seq());
    }
    let ghost start = out@;
    let ghost s = a.adds.seq();
    let ghost t = Seq::new(s.len(), |i: int| (s[i].0@, s[i].1@.dom()));
    out.append("{\"adds\":{");
    let n = a.adds.len();
    let mut i: usize = 0;
    while i < n
        invariant
            n == s.len(),
            s == a.adds.seq(),
            t == Seq::new(s.len(), |i: int| (s[i].0@, s[i].1@.dom())),
            i <= n,
            out@ == start + "{\"adds\":{"@ + adds_json(t.take(i as int)),
        decreases n - i,
    {
        if i > 0 {
            out.append(",");
        }
        let e = a.adds.entry(i);
        let ghost mid = out@;
        write_string(out, e.0.as_str());
        out.append(":");
        write_tag_set(out, &e.1);
        assert(out@ =~= mid + json_string(t[i as int].0) + ":"@ + tag_set_json(t[i as int].1));
        assert(t.take(i + 1).drop_last() =~= t.take(i as int));
        assert(out@ =~= start + "{\"adds\":{"@ + adds_json(t.take(i + 1)));
        i = i + 1;
    }
    assert(t.take(n as int) =~= t);
    out.append("},\"removes\":");
    write_tag_set(out, &a.removes);
    out.append("}");
    assert(out@ =~= start + aworset_json(a@));
}

impl MayaState {
    /// The snapshot document: JSON text in which equal states are written
    /// alike.
    pub fn to_json(&self) -> (r: String)
        ensures
            r@ == state_json(self@),
    {
        let mut out = String::new();
        out.append("{\"node_id\":");
        write_string(&mut out, self.node_id.as_str());
        out.append(",\"clock\":{\"counter\":");
        write_u64(&mut out, self.clock.counter);
        out.append(",\"node_id\":");
        write_string(&mut out, self.clock.node_id.as_str());
        out.append("},\"attackers\":{");
        write_attackers(&mut out, &self.attackers);
        out.append("},\"stolen_creds\":");
        write_aworset(&mut out, &self.stolen_creds);
        out.append(",\"active_sessions\":");
        write_lww_map(&mut out, &self.active_sessions);
        out.append("}");
        assert(out@ =~= state_json(self@));
        out
    }
}

} // verus!
