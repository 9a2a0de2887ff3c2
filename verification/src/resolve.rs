//! Resolving a standards stack: a later pack's rule shadows an earlier rule of
//! the same id, and a pack's overlays waive a rule or change a check's
//! severity. Every rule keeps the chain of packs that acted on it.

use vstd::prelude::*;

use crate::element::ElementId;
use crate::model::{find_pack, pack_index, BuildingModel};
use crate::standards::{
    starter_defaults, BracingTable, CheckSeverity, ComplianceCheck, FasteningSchedule, FramingDefaults,
    HeaderSpanTable, RuleOverlay, StandardsPack, StudTable,
};
use crate::text::{lemma_seq_lt_transitive, lemma_seq_lt_trichotomy, seq_le, seq_lt, str_eq, str_less};

verus! {

/// What a pack did to a rule.
#[derive(Debug, Clone, Copy, PartialEq, Eq, Structural)]
pub enum ResolutionAction {
    Introduced,
    Shadowed,
    Waived,
    Reseverity,
}

/// A rule as resolved: the pack whose version won, its citation, its
/// severity (checks only), the waiver if any, and the chain of actions.
#[derive(Debug, PartialEq, Eq)]
pub struct ResolvedRule {
    pub pack: ElementId,
    pub rule: String,
    pub citation: String,
    pub severity: Option<CheckSeverity>,
    pub waived: Option<String>,
    pub chain: Vec<(ElementId, ResolutionAction)>,
}

/// The effective tables and checks of a standards stack, each with the pack it
/// came from, the resolution record of every rule, and warnings.
#[derive(Debug, PartialEq, Eq)]
pub struct ResolvedStandards {
    pub defaults: FramingDefaults,
    pub studs: Vec<(ElementId, StudTable)>,
    pub headers: Vec<(ElementId, HeaderSpanTable)>,
    pub fastening: Vec<(ElementId, FasteningSchedule)>,
    pub bracing: Vec<(ElementId, BracingTable)>,
    pub checks: Vec<(ElementId, ComplianceCheck)>,
    pub rules: Vec<ResolvedRule>,
    pub warnings: Vec<(String, String)>,
}

/// The list a rule's payload comes from.
#[derive(Debug, Clone, Copy, PartialEq, Eq, Structural)]
pub enum PayloadKind {
    Stud,
    Header,
    Fastening,
    Bracing,
    Check,
}

/// The resolution state of one rule: the winning pack, where its payload sits
/// (stack position, kind, position in that pack's list), its citation and
/// severity, the waiver and the chain.
pub struct RuleState {
    pub pack: Seq<char>,
    pub source: int,
    pub kind: PayloadKind,
    pub index: int,
    pub citation: Seq<char>,
    pub severity: Option<CheckSeverity>,
    pub waived: Option<Seq<char>>,
    pub chain: Seq<(Seq<char>, ResolutionAction)>,
}

/// One payload of a pack: rule, citation, severity, kind, position.
pub type Payload = (Seq<char>, Seq<char>, Option<CheckSeverity>, PayloadKind, int);

pub open spec fn stud_payloads(p: StandardsPack) -> Seq<Payload> {
    Seq::new(p.tables.studs@.len(), |j: int| (p.tables.studs@[j].rule@, p.tables.studs@[j].citation@, None, PayloadKind::Stud, j))
}

pub open spec fn header_payloads(p: StandardsPack) -> Seq<Payload> {
    Seq::new(p.tables.headers@.len(), |j: int| (p.tables.headers@[j].rule@, p.tables.headers@[j].citation@, None, PayloadKind::Header, j))
}

pub open spec fn fastening_payloads(p: StandardsPack) -> Seq<Payload> {
    Seq::new(
        p.tables.fastening@.len(),
        |j: int| (p.tables.fastening@[j].rule@, p.tables.fastening@[j].citation@, None, PayloadKind::Fastening, j),
    )
}

pub open spec fn bracing_payloads(p: StandardsPack) -> Seq<Payload> {
    Seq::new(p.tables.bracing@.len(), |j: int| (p.tables.bracing@[j].rule@, p.tables.bracing@[j].citation@, None, PayloadKind::Bracing, j))
}

pub open spec fn check_payloads(p: StandardsPack) -> Seq<Payload> {
    Seq::new(p.checks@.len(), |j: int| (p.checks@[j].rule@, p.checks@[j].citation@, Some(p.checks@[j].severity), PayloadKind::Check, j))
}

/// A pack's payload replaces any earlier rule of the same id, extending its
/// chain with `Shadowed`, or introduces the rule.
pub open spec fn add_payload(st: Map<Seq<char>, RuleState>, pid: Seq<char>, s: int, e: Payload) -> Map<Seq<char>, RuleState> {
    st.insert(
        e.0,
        RuleState {
            pack: pid,
            source: s,
            kind: e.3,
            index: e.4,
            citation: e.1,
            severity: e.2,
            waived: None,
            chain: if st.contains_key(e.0) {
                st[e.0].chain.push((pid, ResolutionAction::Shadowed))
            } else {
                seq![(pid, ResolutionAction::Introduced)]
            },
        },
    )
}

/// The first `k` payloads of `es` applied in order.
pub open spec fn add_list(st: Map<Seq<char>, RuleState>, pid: Seq<char>, s: int, es: Seq<Payload>, k: int) -> Map<Seq<char>, RuleState>
    decreases k,
{
    if k <= 0 {
        st
    } else {
        add_payload(add_list(st, pid, s, es, k - 1), pid, s, es[k - 1])
    }
}

/// A pack's payloads applied: stud tables, header tables, fastening
/// schedules, bracing tables, then checks.
pub open spec fn payloads_after(st: Map<Seq<char>, RuleState>, p: StandardsPack, s: int) -> Map<Seq<char>, RuleState> {
    let a = add_list(st, p.id@, s, stud_payloads(p), p.tables.studs@.len() as int);
    let b = add_list(a, p.id@, s, header_payloads(p), p.tables.headers@.len() as int);
    let c = add_list(b, p.id@, s, fastening_payloads(p), p.tables.fastening@.len() as int);
    let d = add_list(c, p.id@, s, bracing_payloads(p), p.tables.bracing@.len() as int);
    add_list(d, p.id@, s, check_payloads(p), p.checks@.len() as int)
}

/// An overlay applied: a waiver records its reason, a severity change sets a
/// check's severity; either extends the chain. An overlay on an unknown rule
/// changes nothing.
pub open spec fn overlay_step(st: Map<Seq<char>, RuleState>, pid: Seq<char>, o: RuleOverlay) -> Map<Seq<char>, RuleState> {
    match o {
        RuleOverlay::Waive { target, reason } => if st.contains_key(target@) {
            st.insert(
                target@,
                RuleState {
                    waived: Some(reason@),
                    chain: st[target@].chain.push((pid, ResolutionAction::Waived)),
                    ..st[target@]
                },
            )
        } else {
            st
        },
        RuleOverlay::Severity { target, severity } => if st.contains_key(target@) {
            st.insert(
                target@,
                RuleState {
                    severity: if st[target@].kind == PayloadKind::Check {
                        Some(severity)
                    } else {
                        st[target@].severity
                    },
                    chain: st[target@].chain.push((pid, ResolutionAction::Reseverity)),
                    ..st[target@]
                },
            )
        } else {
            st
        },
    }
}

/// The first `k` overlays applied in order.
pub open spec fn overlays_from(st: Map<Seq<char>, RuleState>, pid: Seq<char>, os: Seq<RuleOverlay>, k: int) -> Map<Seq<char>, RuleState>
    decreases k,
{
    if k <= 0 {
        st
    } else {
        overlay_step(overlays_from(st, pid, os, k - 1), pid, os[k - 1])
    }
}

/// The rules after the first `k` packs of the stack.
pub open spec fn stack_state(stack: Seq<&StandardsPack>, k: int) -> Map<Seq<char>, RuleState>
    decreases k,
{
    if k <= 0 {
        Map::empty()
    } else {
        let p = *stack[k - 1];
        overlays_from(payloads_after(stack_state(stack, k - 1), p, k - 1), p.id@, p.overlays@, p.overlays@.len() as int)
    }
}

/// The name for the `Debug` rendering of a string: quoted, with escapes.
pub uninterp spec fn debug_quoted(s: Seq<char>) -> Seq<char>;

/// The `Debug` rendering of a string (`format!("{:?}", s)`).
#[verifier::external_body]
fn debug_str(s: &str) -> (r: String)
    ensures
        r@ == debug_quoted(s@),
{
    format!("{:?}", s)
}

/// The `Debug` rendering of an element id.
pub open spec fn debug_id(id: Seq<char>) -> Seq<char> {
    "ElementId("@ + debug_quoted(id) + ")"@
}

/// The warning that an overlay on an unknown rule raises.
pub open spec fn overlay_warning(st: Map<Seq<char>, RuleState>, pid: Seq<char>, o: RuleOverlay) -> Seq<(Seq<char>, Seq<char>)> {
    let (target, verb) = match o {
        RuleOverlay::Waive { target, .. } => (target@, " waives unmatched rule "@),
        RuleOverlay::Severity { target, .. } => (target@, " re-severities unmatched rule "@),
    };
    if st.contains_key(target) {
        Seq::empty()
    } else {
        seq![("standards.overlay.unmatched"@, "standards pack "@ + debug_id(pid) + verb + debug_quoted(target))]
    }
}

/// The warnings of the first `k` overlays.
pub open spec fn overlay_warnings(st: Map<Seq<char>, RuleState>, pid: Seq<char>, os: Seq<RuleOverlay>, k: int) -> Seq<(Seq<char>, Seq<char>)>
    decreases k,
{
    if k <= 0 {
        Seq::empty()
    } else {
        overlay_warnings(st, pid, os, k - 1) + overlay_warning(overlays_from(st, pid, os, k - 1), pid, os[k - 1])
    }
}

/// The warnings of the first `k` packs of the stack.
pub open spec fn stack_warnings(stack: Seq<&StandardsPack>, k: int) -> Seq<(Seq<char>, Seq<char>)>
    decreases k,
{
    if k <= 0 {
        Seq::empty()
    } else {
        let p = *stack[k - 1];
        stack_warnings(stack, k - 1) + overlay_warnings(
            payloads_after(stack_state(stack, k - 1), p, k - 1),
            p.id@,
            p.overlays@,
            p.overlays@.len() as int,
        )
    }
}

/// The chain with ids by their text.
pub open spec fn chain_view(c: Seq<(ElementId, ResolutionAction)>) -> Seq<(Seq<char>, ResolutionAction)> {
    c.map_values(|x: (ElementId, ResolutionAction)| (x.0@, x.1))
}

/// The warnings by their text.
pub open spec fn warnings_view(w: Seq<(String, String)>) -> Seq<(Seq<char>, Seq<char>)> {
    w.map_values(|x: (String, String)| (x.0@, x.1@))
}

/// A resolved rule records the state of its rule.
pub open spec fn rule_records(r: ResolvedRule, s: RuleState) -> bool {
    &&& r.pack@ == s.pack
    &&& r.citation@ == s.citation
    &&& r.severity == s.severity
    &&& match r.waived {
        Some(w) => s.waived == Some(w@),
        None => s.waived is None,
    }
    &&& chain_view(r.chain@) == s.chain
}

/// The resolved rules are the rules of `st`, one each, in strictly increasing
/// order of rule id.
pub open spec fn rules_resolved(rules: Seq<ResolvedRule>, st: Map<Seq<char>, RuleState>) -> bool {
    &&& rules.len() == st.dom().len()
    &&& forall|i: int, j: int| 0 <= i < j < rules.len() ==> seq_lt(#[trigger] rules[i].rule@, #[trigger] rules[j].rule@)
    &&& forall|i: int| 0 <= i < rules.len() ==> st.contains_key(#[trigger] rules[i].rule@) && rule_records(rules[i], st[rules[i].rule@])
}

/// The states, in the order of `keys`, of the rules of kind `kind` that are
/// not waived.
pub open spec fn picks(keys: Seq<Seq<char>>, st: Map<Seq<char>, RuleState>, kind: PayloadKind) -> Seq<RuleState>
    decreases keys.len(),
{
    if keys.len() == 0 {
        Seq::empty()
    } else {
        let p = picks(keys.drop_last(), st, kind);
        let s = st[keys.last()];
        if s.kind == kind && s.waived is None {
            p.push(s)
        } else {
            p
        }
    }
}

/// The ids of resolved rules.
pub open spec fn rule_keys(rules: Seq<ResolvedRule>) -> Seq<Seq<char>> {
    rules.map_values(|r: ResolvedRule| r.rule@)
}

pub open spec fn stud_copy(a: StudTable, b: StudTable) -> bool {
    a.rule == b.rule && a.citation == b.citation && a.rows@ == b.rows@
}

pub open spec fn header_copy(a: HeaderSpanTable, b: HeaderSpanTable) -> bool {
    a.rule == b.rule && a.citation == b.citation && a.rows@ == b.rows@
}

pub open spec fn fastening_copy(a: FasteningSchedule, b: FasteningSchedule) -> bool {
    a.rule == b.rule && a.citation == b.citation && a.rows@ == b.rows@
}

pub open spec fn bracing_copy(a: BracingTable, b: BracingTable) -> bool {
    a.rule == b.rule && a.citation == b.citation && a.rows@ == b.rows@
}

/// A copy of a check with the resolved severity.
pub open spec fn check_copy(a: ComplianceCheck, b: ComplianceCheck, severity: CheckSeverity) -> bool {
    a.rule == b.rule && a.citation == b.citation && a.title == b.title && a.severity == severity
}

/// The picked tables of one kind, each with its pack, copied from the stack.
pub open spec fn studs_resolved(out: Seq<(ElementId, StudTable)>, ps: Seq<RuleState>, stack: Seq<&StandardsPack>) -> bool {
    &&& out.len() == ps.len()
    &&& forall|i: int| 0 <= i < out.len() ==> (#[trigger] out[i]).0@ == ps[i].pack && stud_copy(
        out[i].1,
        stack[ps[i].source].tables.studs@[ps[i].index],
    )
}

pub open spec fn headers_resolved(out: Seq<(ElementId, HeaderSpanTable)>, ps: Seq<RuleState>, stack: Seq<&StandardsPack>) -> bool {
    &&& out.len() == ps.len()
    &&& forall|i: int| 0 <= i < out.len() ==> (#[trigger] out[i]).0@ == ps[i].pack && header_copy(
        out[i].1,
        stack[ps[i].source].tables.headers@[ps[i].index],
    )
}

pub open spec fn fastening_resolved(out: Seq<(ElementId, FasteningSchedule)>, ps: Seq<RuleState>, stack: Seq<&StandardsPack>) -> bool {
    &&& out.len() == ps.len()
    &&& forall|i: int| 0 <= i < out.len() ==> (#[trigger] out[i]).0@ == ps[i].pack && fastening_copy(
        out[i].1,
        stack[ps[i].source].tables.fastening@[ps[i].index],
    )
}

pub open spec fn bracing_resolved(out: Seq<(ElementId, BracingTable)>, ps: Seq<RuleState>, stack: Seq<&StandardsPack>) -> bool {
    &&& out.len() == ps.len()
    &&& forall|i: int| 0 <= i < out.len() ==> (#[trigger] out[i]).0@ == ps[i].pack && bracing_copy(
        out[i].1,
        stack[ps[i].source].tables.bracing@[ps[i].index],
    )
}

pub open spec fn checks_resolved(out: Seq<(ElementId, ComplianceCheck)>, ps: Seq<RuleState>, stack: Seq<&StandardsPack>) -> bool {
    &&& out.len() == ps.len()
    &&& forall|i: int| 0 <= i < out.len() ==> (#[trigger] out[i]).0@ == ps[i].pack && ps[i].severity is Some && check_copy(
        out[i].1,
        stack[ps[i].source].checks@[ps[i].index],
        ps[i].severity->0,
    )
}

// ---------------------------------------------------------------------------
// The working set of rules
// ---------------------------------------------------------------------------

struct Entry {
    rule: String,
    pack: ElementId,
    source: usize,
    kind: PayloadKind,
    index: usize,
    citation: String,
    severity: Option<CheckSeverity>,
    waived: Option<String>,
    chain: Vec<(ElementId, ResolutionAction)>,
}

spec fn entry_state(e: Entry) -> RuleState {
    RuleState {
        pack: e.pack@,
        source: e.source as int,
        kind: e.kind,
        index: e.index as int,
        citation: e.citation@,
        severity: e.severity,
        waived: match e.waived {
            Some(w) => Some(w@),
            None => None,
        },
        chain: chain_view(e.chain@),
    }
}

spec fn entries_map(v: Seq<Entry>) -> Map<Seq<char>, RuleState>
    decreases v.len(),
{
    if v.len() == 0 {
        Map::empty()
    } else {
        entries_map(v.drop_last()).insert(v.last().rule@, entry_state(v.last()))
    }
}

spec fn distinct_rules(v: Seq<Entry>) -> bool {
    forall|i: int, j: int| 0 <= i < v.len() && 0 <= j < v.len() && i != j ==> #[trigger] v[i].rule@ != #[trigger] v[j].rule@
}

spec fn state_valid(s: RuleState, stack: Seq<&StandardsPack>) -> bool {
    &&& 0 <= s.source < stack.len()
    &&& 0 <= s.index
    &&& match s.kind {
        PayloadKind::Stud => s.index < stack[s.source].tables.studs@.len(),
        PayloadKind::Header => s.index < stack[s.source].tables.headers@.len(),
        PayloadKind::Fastening => s.index < stack[s.source].tables.fastening@.len(),
        PayloadKind::Bracing => s.index < stack[s.source].tables.bracing@.len(),
        PayloadKind::Check => s.index < stack[s.source].checks@.len() && s.severity is Some,
    }
}

proof fn lemma_entries_map(v: Seq<Entry>)
    requires
        distinct_rules(v),
    ensures
        forall|i: int| 0 <= i < v.len() ==> entries_map(v).contains_key(#[trigger] v[i].rule@) && entries_map(v)[v[i].rule@]
            == entry_state(v[i]),
        forall|k: Seq<char>| #[trigger] entries_map(v).contains_key(k) ==> exists|i: int| 0 <= i < v.len() && v[i].rule@ == k,
        entries_map(v).dom().finite(),
        entries_map(v).dom().len() == v.len(),
    decreases v.len(),
{
    if v.len() > 0 {
        let w = v.drop_last();
        assert(distinct_rules(w)) by {
            assert forall|i: int, j: int| 0 <= i < w.len() && 0 <= j < w.len() && i != j implies #[trigger] w[i].rule@
                != #[trigger] w[j].rule@ by {
                assert(w[i] == v[i] && w[j] == v[j]);
            }
        }
        lemma_entries_map(w);
        let last = v.last();
        assert(!entries_map(w).contains_key(last.rule@)) by {
            if entries_map(w).contains_key(last.rule@) {
                let i = choose|i: int| 0 <= i < w.len() && w[i].rule@ == last.rule@;
                assert(v[i].rule@ == v[v.len() - 1].rule@);
            }
        }
        assert forall|i: int| 0 <= i < v.len() implies entries_map(v).contains_key(#[trigger] v[i].rule@)
            && entries_map(v)[v[i].rule@] == entry_state(v[i]) by {
            if i < v.len() - 1 {
                assert(w[i] == v[i]);
                assert(v[i].rule@ != v[v.len() - 1].rule@);
            }
        }
        assert forall|k: Seq<char>| #[trigger] entries_map(v).contains_key(k) implies exists|i: int|
            0 <= i < v.len() && v[i].rule@ == k by {
            if k == last.rule@ {
                assert(v[v.len() - 1].rule@ == k);
            } else {
                assert(entries_map(w).contains_key(k));
                let i = choose|i: int| 0 <= i < w.len() && w[i].rule@ == k;
                assert(v[i] == w[i]);
            }
        }
    }
}

/// The position of the entry for `rule`.
fn find_rule(entries: &Vec<Entry>, rule: &str) -> (r: Option<usize>)
    ensures
        match r {
            Some(i) => i < entries@.len() && entries@[i as int].rule@ == rule@,
            None => forall|i: int| 0 <= i < entries@.len() ==> #[trigger] entries@[i].rule@ != rule@,
        },
{
    let mut i: usize = 0;
    while i < entries.len()
        invariant
            i <= entries@.len(),
            forall|k: int| 0 <= k < i ==> #[trigger] entries@[k].rule@ != rule@,
        decreases entries@.len() - i,
    {
        if str_eq(entries[i].rule.as_str(), rule) {
            return Some(i);
        }
        i = i + 1;
    }
    None
}

proof fn lemma_replace(v: Seq<Entry>, i: int, e: Entry)
    requires
        distinct_rules(v),
        0 <= i < v.len(),
        e.rule@ == v[i].rule@,
    ensures
        distinct_rules(v.update(i, e)),
        entries_map(v.update(i, e)) == entries_map(v).insert(e.rule@, entry_state(e)),
{
    let u = v.update(i, e);
    assert forall|a: int, b: int| 0 <= a < u.len() && 0 <= b < u.len() && a != b implies #[trigger] u[a].rule@
        != #[trigger] u[b].rule@ by {
        assert(u[a].rule@ == v[a].rule@ && u[b].rule@ == v[b].rule@);
    }
    lemma_entries_map(v);
    lemma_entries_map(u);
    assert forall|k: Seq<char>| entries_map(u).contains_key(k) <==> entries_map(v).insert(e.rule@, entry_state(e)).contains_key(
        k,
    ) by {
        if entries_map(u).contains_key(k) {
            let a = choose|a: int| 0 <= a < u.len() && u[a].rule@ == k;
            assert(v[a].rule@ == k);
            assert(entries_map(v).contains_key(v[a].rule@));
        }
        if entries_map(v).contains_key(k) {
            let a = choose|a: int| 0 <= a < v.len() && v[a].rule@ == k;
            assert(u[a].rule@ == k);
            assert(entries_map(u).contains_key(u[a].rule@));
        }
        if k == e.rule@ {
            assert(u[i].rule@ == k);
            assert(entries_map(u).contains_key(u[i].rule@));
        }
    }
    assert forall|k: Seq<char>| #[trigger] entries_map(u).contains_key(k) implies entries_map(u)[k] == entries_map(v).insert(
        e.rule@,
        entry_state(e),
    )[k] by {
        let a = choose|a: int| 0 <= a < u.len() && u[a].rule@ == k;
        assert(entries_map(u).contains_key(u[a].rule@));
        if a != i {
            assert(u[a] == v[a]);
            assert(entries_map(v).contains_key(v[a].rule@));
        }
    }
    assert(entries_map(u) =~= entries_map(v).insert(e.rule@, entry_state(e)));
}

proof fn lemma_take_out(v: Seq<Entry>, i: int)
    requires
        distinct_rules(v),
        0 <= i < v.len(),
    ensures
        distinct_rules(v.remove(i)),
        entries_map(v.remove(i)) == entries_map(v).remove(v[i].rule@),
{
    let u = v.remove(i);
    assert forall|a: int, b: int| 0 <= a < u.len() && 0 <= b < u.len() && a != b implies #[trigger] u[a].rule@
        != #[trigger] u[b].rule@ by {
        let oa = if a < i {
            a
        } else {
            a + 1
        };
        let ob = if b < i {
            b
        } else {
            b + 1
        };
        assert(u[a] == v[oa] && u[b] == v[ob]);
    }
    lemma_entries_map(v);
    lemma_entries_map(u);
    let m = entries_map(v).remove(v[i].rule@);
    assert forall|k: Seq<char>| entries_map(u).contains_key(k) <==> m.contains_key(k) by {
        if entries_map(u).contains_key(k) {
            let a = choose|a: int| 0 <= a < u.len() && u[a].rule@ == k;
            let oa = if a < i {
                a
            } else {
                a + 1
            };
            assert(u[a] == v[oa]);
            assert(entries_map(v).contains_key(v[oa].rule@));
        }
        if m.contains_key(k) {
            let a = choose|a: int| 0 <= a < v.len() && v[a].rule@ == k;
            let ua = if a < i {
                a
            } else {
                a - 1
            };
            assert(u[ua] == v[a]);
            assert(entries_map(u).contains_key(u[ua].rule@));
        }
    }
    assert forall|k: Seq<char>| #[trigger] entries_map(u).contains_key(k) implies entries_map(u)[k] == m[k] by {
        let a = choose|a: int| 0 <= a < u.len() && u[a].rule@ == k;
        let oa = if a < i {
            a
        } else {
            a + 1
        };
        assert(u[a] == v[oa]);
        assert(entries_map(u).contains_key(u[a].rule@));
        assert(entries_map(v).contains_key(v[oa].rule@));
    }
    assert(entries_map(u) =~= m);
}

/// Applies one payload to the working set.
fn add_rule(
    entries: &mut Vec<Entry>,
    pack: &ElementId,
    source: usize,
    payload: (&String, &String, Option<CheckSeverity>, PayloadKind, usize),
)
    requires
        distinct_rules(old(entries)@),
    ensures
        distinct_rules(final(entries)@),
        entries_map(final(entries)@) == add_payload(
            entries_map(old(entries)@),
            pack@,
            source as int,
            (payload.0@, payload.1@, payload.2, payload.3, payload.4 as int),
        ),
{
    let ghost before = entries@;
    let (rule, citation, severity, kind, index) = payload;
    proof {
        lemma_entries_map(before);
    }
    match find_rule(entries, rule.as_str()) {
        Some(i) => {
            let prior = entries.remove(i);
            let mut chain = prior.chain;
            let ghost c0 = chain@;
            chain.push((pack.clone(), ResolutionAction::Shadowed));
            proof {
                assert(chain_view(chain@) =~= chain_view(c0).push((pack@, ResolutionAction::Shadowed)));
            }
            let e = Entry {
                rule: prior.rule,
                pack: pack.clone(),
                source,
                kind,
                index,
                citation: citation.clone(),
                severity,
                waived: None,
                chain,
            };
            entries.insert(i, e);
            proof {
                assert(entries@ =~= before.update(i as int, e));
                lemma_replace(before, i as int, e);
                assert(entries_map(before).contains_key(before[i as int].rule@));
            }
        },
        None => {
            let mut chain: Vec<(ElementId, ResolutionAction)> = Vec::new();
            chain.push((pack.clone(), ResolutionAction::Introduced));
            proof {
                assert(chain_view(chain@) =~= seq![(pack@, ResolutionAction::Introduced)]);
            }
            let e = Entry {
                rule: rule.clone(),
                pack: pack.clone(),
                source,
                kind,
                index,
                citation: citation.clone(),
                severity,
                waived: None,
                chain,
            };
            entries.push(e);
            proof {
                assert(!entries_map(before).contains_key(rule@)) by {
                    if entries_map(before).contains_key(rule@) {
                        let k = choose|k: int| 0 <= k < before.len() && before[k].rule@ == rule@;
                        assert(before[k].rule@ != rule@);
                    }
                }
                assert(entries@.drop_last() =~= before);
                assert forall|a: int, b: int| 0 <= a < entries@.len() && 0 <= b < entries@.len() && a != b implies #[trigger] entries@[a].rule@
                    != #[trigger] entries@[b].rule@ by {
                    if a < before.len() && b < before.len() {
                        assert(entries@[a] == before[a] && entries@[b] == before[b]);
                    } else if a < before.len() {
                        assert(entries@[a] == before[a]);
                    } else {
                        assert(entries@[b] == before[b]);
                    }
                }
            }
        },
    }
}


/// Every rule's payload can be found in the stack.
spec fn map_valid(st: Map<Seq<char>, RuleState>, stack: Seq<&StandardsPack>) -> bool {
    forall|k: Seq<char>| #[trigger] st.contains_key(k) ==> state_valid(st[k], stack)
}

fn unmatched_warning(pack: &ElementId, verb: &str, target: &String) -> (r: (String, String))
    ensures
        r.0@ == "standards.overlay.unmatched"@,
        r.1@ == "standards pack "@ + debug_id(pack@) + verb@ + debug_quoted(target@),
{
    let mut message = "standards pack ".to_owned();
    message.append("ElementId(");
    let quoted_pack = debug_str(pack.as_str());
    message.append(quoted_pack.as_str());
    message.append(")");
    message.append(verb);
    let quoted_target = debug_str(target.as_str());
    message.append(quoted_target.as_str());
    proof {
        assert(message@ =~= "standards pack "@ + debug_id(pack@) + verb@ + debug_quoted(target@));
    }
    ("standards.overlay.unmatched".to_owned(), message)
}

/// Applies one overlay to the working set, or warns that its rule is unknown.
fn apply_overlay(
    entries: &mut Vec<Entry>,
    warnings: &mut Vec<(String, String)>,
    pack: &ElementId,
    overlay: &RuleOverlay,
    Ghost(stack): Ghost<Seq<&StandardsPack>>,
)
    requires
        distinct_rules(old(entries)@),
        map_valid(entries_map(old(entries)@), stack),
    ensures
        distinct_rules(final(entries)@),
        map_valid(entries_map(final(entries)@), stack),
        entries_map(final(entries)@) == overlay_step(entries_map(old(entries)@), pack@, *overlay),
        warnings_view(final(warnings)@) == warnings_view(old(warnings)@) + overlay_warning(
            entries_map(old(entries)@),
            pack@,
            *overlay,
        ),
{
    let ghost before = entries@;
    let ghost w0 = warnings@;
    proof {
        lemma_entries_map(before);
    }
    match overlay {
        RuleOverlay::Waive { target, reason } => match find_rule(entries, target.as_str()) {
            Some(i) => {
                let mut e = entries.remove(i);
                let ghost c0 = e.chain@;
                e.waived = Some(reason.clone());
                e.chain.push((pack.clone(), ResolutionAction::Waived));
                entries.insert(i, e);
                proof {
                    assert(chain_view(e.chain@) =~= chain_view(c0).push((pack@, ResolutionAction::Waived)));
                    assert(entries@ =~= before.update(i as int, e));
                    lemma_replace(before, i as int, e);
                    assert(entries_map(before).contains_key(before[i as int].rule@));
                    assert(overlay_warning(entries_map(before), pack@, *overlay) =~= Seq::empty());
                    assert(warnings_view(warnings@) =~= warnings_view(w0) + Seq::empty());
                    assert(entry_state(e) == RuleState {
                        waived: Some(reason@),
                        chain: entries_map(before)[target@].chain.push((pack@, ResolutionAction::Waived)),
                        ..entries_map(before)[target@]
                    });
                }
            },
            None => {
                let w = unmatched_warning(pack, " waives unmatched rule ", target);
                warnings.push(w);
                proof {
                    assert(!entries_map(before).contains_key(target@)) by {
                        if entries_map(before).contains_key(target@) {
                            let k = choose|k: int| 0 <= k < before.len() && before[k].rule@ == target@;
                            assert(before[k].rule@ != target@);
                        }
                    }
                    assert(warnings_view(warnings@) =~= warnings_view(w0) + overlay_warning(entries_map(before), pack@, *overlay));
                }
            },
        },
        RuleOverlay::Severity { target, severity } => match find_rule(entries, target.as_str()) {
            Some(i) => {
                let mut e = entries.remove(i);
                let ghost c0 = e.chain@;
                if e.kind == PayloadKind::Check {
                    e.severity = Some(*severity);
                }
                e.chain.push((pack.clone(), ResolutionAction::Reseverity));
                entries.insert(i, e);
                proof {
                    assert(chain_view(e.chain@) =~= chain_view(c0).push((pack@, ResolutionAction::Reseverity)));
                    assert(entries@ =~= before.update(i as int, e));
                    lemma_replace(before, i as int, e);
                    assert(entries_map(before).contains_key(before[i as int].rule@));
                    assert(overlay_warning(entries_map(before), pack@, *overlay) =~= Seq::empty());
                    assert(warnings_view(warnings@) =~= warnings_view(w0) + Seq::empty());
                }
            },
            None => {
                let w = unmatched_warning(pack, " re-severities unmatched rule ", target);
                warnings.push(w);
                proof {
                    assert(!entries_map(before).contains_key(target@)) by {
                        if entries_map(before).contains_key(target@) {
                            let k = choose|k: int| 0 <= k < before.len() && before[k].rule@ == target@;
                            assert(before[k].rule@ != target@);
                        }
                    }
                    assert(warnings_view(warnings@) =~= warnings_view(w0) + overlay_warning(entries_map(before), pack@, *overlay));
                }
            },
        },
    }
}

/// Applies a pack's payloads of one kind.
fn add_kind(
    entries: &mut Vec<Entry>,
    pack: &ElementId,
    source: usize,
    rules: Vec<(&String, &String, Option<CheckSeverity>)>,
    kind: PayloadKind,
    Ghost(es): Ghost<Seq<Payload>>,
    Ghost(stack): Ghost<Seq<&StandardsPack>>,
)
    requires
        distinct_rules(old(entries)@),
        map_valid(entries_map(old(entries)@), stack),
        es.len() == rules@.len(),
        forall|j: int| 0 <= j < es.len() ==> (#[trigger] es[j]) == (rules@[j].0@, rules@[j].1@, rules@[j].2, kind, j),
        forall|j: int| 0 <= j < es.len() ==> state_valid(
            RuleState {
                pack: pack@,
                source: source as int,
                kind,
                index: j,
                citation: Seq::empty(),
                severity: rules@[j].2,
                waived: None,
                chain: Seq::empty(),
            },
            stack,
        ),
    ensures
        distinct_rules(final(entries)@),
        map_valid(entries_map(final(entries)@), stack),
        entries_map(final(entries)@) == add_list(entries_map(old(entries)@), pack@, source as int, es, es.len() as int),
{
    let ghost start = entries_map(entries@);
    let mut j: usize = 0;
    while j < rules.len()
        invariant
            j <= rules@.len(),
            es.len() == rules@.len(),
            forall|q: int| 0 <= q < es.len() ==> (#[trigger] es[q]) == (rules@[q].0@, rules@[q].1@, rules@[q].2, kind, q),
            forall|q: int| 0 <= q < es.len() ==> state_valid(
                RuleState {
                    pack: pack@,
                    source: source as int,
                    kind,
                    index: q,
                    citation: Seq::empty(),
                    severity: rules@[q].2,
                    waived: None,
                    chain: Seq::empty(),
                },
                stack,
            ),
            distinct_rules(entries@),
            map_valid(entries_map(entries@), stack),
            entries_map(entries@) == add_list(start, pack@, source as int, es, j as int),
        decreases rules@.len() - j,
    {
        let (rule, citation, severity) = rules[j];
        let ghost before = entries_map(entries@);
        add_rule(entries, pack, source, (rule, citation, severity, kind, j));
        proof {
            assert(es[j as int] == (rule@, citation@, severity, kind, j as int));
            let after = entries_map(entries@);
            assert forall|k: Seq<char>| #[trigger] after.contains_key(k) implies state_valid(after[k], stack) by {
                if k != rule@ {
                    assert(before.contains_key(k));
                } else {
                    assert(state_valid(
                        RuleState {
                            pack: pack@,
                            source: source as int,
                            kind,
                            index: j as int,
                            citation: Seq::empty(),
                            severity: rules@[j as int].2,
                            waived: None,
                            chain: Seq::empty(),
                        },
                        stack,
                    ));
                }
            }
        }
        j = j + 1;
    }
}

/// Applies one pack: its payloads, then its overlays.
fn apply_pack(
    entries: &mut Vec<Entry>,
    warnings: &mut Vec<(String, String)>,
    pack: &StandardsPack,
    source: usize,
    Ghost(stack): Ghost<Seq<&StandardsPack>>,
)
    requires
        distinct_rules(old(entries)@),
        map_valid(entries_map(old(entries)@), stack),
        source < stack.len(),
        *stack[source as int] == *pack,
    ensures
        distinct_rules(final(entries)@),
        map_valid(entries_map(final(entries)@), stack),
        entries_map(final(entries)@) == overlays_from(
            payloads_after(entries_map(old(entries)@), *pack, source as int),
            pack.id@,
            pack.overlays@,
            pack.overlays@.len() as int,
        ),
        warnings_view(final(warnings)@) == warnings_view(old(warnings)@) + overlay_warnings(
            payloads_after(entries_map(old(entries)@), *pack, source as int),
            pack.id@,
            pack.overlays@,
            pack.overlays@.len() as int,
        ),
{
    let mut studs: Vec<(&String, &String, Option<CheckSeverity>)> = Vec::new();
    let mut j: usize = 0;
    while j < pack.tables.studs.len()
        invariant
            j <= pack.tables.studs@.len(),
            studs@.len() == j,
            forall|q: int| 0 <= q < j ==> (#[trigger] studs@[q]) == (&pack.tables.studs@[q].rule, &pack.tables.studs@[q].citation, None::<CheckSeverity>),
        decreases pack.tables.studs@.len() - j,
    {
        studs.push((&pack.tables.studs[j].rule, &pack.tables.studs[j].citation, None));
        j = j + 1;
    }
    add_kind(entries, &pack.id, source, studs, PayloadKind::Stud, Ghost(stud_payloads(*pack)), Ghost(stack));
    let mut headers: Vec<(&String, &String, Option<CheckSeverity>)> = Vec::new();
    let mut j: usize = 0;
    while j < pack.tables.headers.len()
        invariant
            j <= pack.tables.headers@.len(),
            headers@.len() == j,
            forall|q: int| 0 <= q < j ==> (#[trigger] headers@[q]) == (&pack.tables.headers@[q].rule, &pack.tables.headers@[q].citation, None::<CheckSeverity>),
        decreases pack.tables.headers@.len() - j,
    {
        headers.push((&pack.tables.headers[j].rule, &pack.tables.headers[j].citation, None));
        j = j + 1;
    }
    add_kind(entries, &pack.id, source, headers, PayloadKind::Header, Ghost(header_payloads(*pack)), Ghost(stack));
    let mut fastening: Vec<(&String, &String, Option<CheckSeverity>)> = Vec::new();
    let mut j: usize = 0;
    while j < pack.tables.fastening.len()
        invariant
            j <= pack.tables.fastening@.len(),
            fastening@.len() == j,
            forall|q: int| 0 <= q < j ==> (#[trigger] fastening@[q]) == (&pack.tables.fastening@[q].rule, &pack.tables.fastening@[q].citation, None::<CheckSeverity>),
        decreases pack.tables.fastening@.len() - j,
    {
        fastening.push((&pack.tables.fastening[j].rule, &pack.tables.fastening[j].citation, None));
        j = j + 1;
    }
    add_kind(entries, &pack.id, source, fastening, PayloadKind::Fastening, Ghost(fastening_payloads(*pack)), Ghost(stack));
    let mut bracing: Vec<(&String, &String, Option<CheckSeverity>)> = Vec::new();
    let mut j: usize = 0;
    while j < pack.tables.bracing.len()
        invariant
            j <= pack.tables.bracing@.len(),
            bracing@.len() == j,
            forall|q: int| 0 <= q < j ==> (#[trigger] bracing@[q]) == (&pack.tables.bracing@[q].rule, &pack.tables.bracing@[q].citation, None::<CheckSeverity>),
        decreases pack.tables.bracing@.len() - j,
    {
        bracing.push((&pack.tables.bracing[j].rule, &pack.tables.bracing[j].citation, None));
        j = j + 1;
    }
    add_kind(entries, &pack.id, source, bracing, PayloadKind::Bracing, Ghost(bracing_payloads(*pack)), Ghost(stack));
    let mut checks: Vec<(&String, &String, Option<CheckSeverity>)> = Vec::new();
    let mut j: usize = 0;
    while j < pack.checks.len()
        invariant
            j <= pack.checks@.len(),
            checks@.len() == j,
            forall|q: int| 0 <= q < j ==> (#[trigger] checks@[q]) == (&pack.checks@[q].rule, &pack.checks@[q].citation, Some(pack.checks@[q].severity)),
        decreases pack.checks@.len() - j,
    {
        checks.push((&pack.checks[j].rule, &pack.checks[j].citation, Some(pack.checks[j].severity)));
        j = j + 1;
    }
    add_kind(entries, &pack.id, source, checks, PayloadKind::Check, Ghost(check_payloads(*pack)), Ghost(stack));
    let ghost after_payloads = entries_map(entries@);
    let ghost w0 = warnings@;
    let mut k: usize = 0;
    while k < pack.overlays.len()
        invariant
            k <= pack.overlays@.len(),
            distinct_rules(entries@),
            map_valid(entries_map(entries@), stack),
            entries_map(entries@) == overlays_from(after_payloads, pack.id@, pack.overlays@, k as int),
            warnings_view(warnings@) == warnings_view(w0) + overlay_warnings(after_payloads, pack.id@, pack.overlays@, k as int),
        decreases pack.overlays@.len() - k,
    {
        let ghost wv = warnings_view(warnings@);
        apply_overlay(entries, warnings, &pack.id, &pack.overlays[k], Ghost(stack));
        proof {
            let a = warnings_view(w0);
            let b = overlay_warnings(after_payloads, pack.id@, pack.overlays@, k as int);
            let c = overlay_warning(overlays_from(after_payloads, pack.id@, pack.overlays@, k as int), pack.id@, pack.overlays@[k as int]);
            assert((a + b) + c =~= a + (b + c));
        }
        k = k + 1;
    }
}

fn copy_stud_table(t: &StudTable) -> (r: StudTable)
    ensures
        stud_copy(r, *t),
{
    let mut rows = Vec::new();
    let mut i: usize = 0;
    while i < t.rows.len()
        invariant
            i <= t.rows@.len(),
            rows@ == t.rows@.subrange(0, i as int),
        decreases t.rows@.len() - i,
    {
        rows.push(t.rows[i]);
        i = i + 1;
    }
    assert(rows@ =~= t.rows@);
    StudTable { rule: t.rule.clone(), citation: t.citation.clone(), rows }
}

fn copy_header_table(t: &HeaderSpanTable) -> (r: HeaderSpanTable)
    ensures
        header_copy(r, *t),
{
    let mut rows = Vec::new();
    let mut i: usize = 0;
    while i < t.rows.len()
        invariant
            i <= t.rows@.len(),
            rows@ == t.rows@.subrange(0, i as int),
        decreases t.rows@.len() - i,
    {
        rows.push(t.rows[i]);
        i = i + 1;
    }
    assert(rows@ =~= t.rows@);
    HeaderSpanTable { rule: t.rule.clone(), citation: t.citation.clone(), rows }
}

fn copy_fastening_schedule(t: &FasteningSchedule) -> (r: FasteningSchedule)
    ensures
        fastening_copy(r, *t),
{
    let mut rows = Vec::new();
    let mut i: usize = 0;
    while i < t.rows.len()
        invariant
            i <= t.rows@.len(),
            rows@ == t.rows@.subrange(0, i as int),
        decreases t.rows@.len() - i,
    {
        rows.push(t.rows[i].clone());
        i = i + 1;
    }
    assert(rows@ =~= t.rows@);
    FasteningSchedule { rule: t.rule.clone(), citation: t.citation.clone(), rows }
}

fn copy_bracing_table(t: &BracingTable) -> (r: BracingTable)
    ensures
        bracing_copy(r, *t),
{
    let mut rows = Vec::new();
    let mut i: usize = 0;
    while i < t.rows.len()
        invariant
            i <= t.rows@.len(),
            rows@ == t.rows@.subrange(0, i as int),
        decreases t.rows@.len() - i,
    {
        rows.push(t.rows[i]);
        i = i + 1;
    }
    assert(rows@ =~= t.rows@);
    BracingTable { rule: t.rule.clone(), citation: t.citation.clone(), rows }
}

/// A copy of a check carrying the resolved severity. Its applicability,
/// scope and requirement are copied by `Clone` impls of which nothing is stated.
fn copy_check(c: &ComplianceCheck, severity: CheckSeverity) -> (r: ComplianceCheck)
    ensures
        check_copy(r, *c, severity),
{
    ComplianceCheck {
        rule: c.rule.clone(),
        citation: c.citation.clone(),
        title: c.title.clone(),
        severity,
        applies: c.applies.clone(),
        scope: c.scope.clone(),
        requirement: c.requirement.clone(),
    }
}

/// The position of the entry with the least rule id.
fn least_rule(entries: &Vec<Entry>) -> (r: usize)
    requires
        entries@.len() > 0,
    ensures
        r < entries@.len(),
        forall|k: int| 0 <= k < entries@.len() ==> seq_le(entries@[r as int].rule@, #[trigger] entries@[k].rule@),
{
    let mut best: usize = 0;
    let mut i: usize = 1;
    while i < entries.len()
        invariant
            1 <= i <= entries@.len(),
            best < i,
            forall|k: int| 0 <= k < i ==> seq_le(entries@[best as int].rule@, #[trigger] entries@[k].rule@),
        decreases entries@.len() - i,
    {
        if str_less(entries[i].rule.as_str(), entries[best].rule.as_str()) {
            proof {
                assert forall|k: int| 0 <= k < i implies seq_le(entries@[i as int].rule@, #[trigger] entries@[k].rule@) by {
                    if seq_lt(entries@[best as int].rule@, entries@[k].rule@) {
                        lemma_seq_lt_transitive(entries@[i as int].rule@, entries@[best as int].rule@, entries@[k].rule@);
                    }
                }
            }
            best = i;
        } else {
            proof {
                lemma_seq_lt_trichotomy(entries@[i as int].rule@, entries@[best as int].rule@);
            }
        }
        i = i + 1;
    }
    best
}

/// Resolves a standards stack, first pack first: each pack's tables and checks
/// shadow earlier rules of the same id, then its overlays waive rules or set a
/// check's severity (an overlay on an unknown rule only warns). The effective
/// tables and checks leave out waived rules and come in rule-id order; the
/// defaults are the last pack's (the starter defaults for an empty stack).
pub fn resolve_standards(stack: &Vec<&StandardsPack>) -> (r: ResolvedStandards)
    ensures
        r.defaults == if stack@.len() == 0 {
            starter_defaults()
        } else {
            stack@.last().tables.defaults
        },
        rules_resolved(r.rules@, stack_state(stack@, stack@.len() as int)),
        studs_resolved(r.studs@, picks(rule_keys(r.rules@), stack_state(stack@, stack@.len() as int), PayloadKind::Stud), stack@),
        headers_resolved(
            r.headers@,
            picks(rule_keys(r.rules@), stack_state(stack@, stack@.len() as int), PayloadKind::Header),
            stack@,
        ),
        fastening_resolved(
            r.fastening@,
            picks(rule_keys(r.rules@), stack_state(stack@, stack@.len() as int), PayloadKind::Fastening),
            stack@,
        ),
        bracing_resolved(
            r.bracing@,
            picks(rule_keys(r.rules@), stack_state(stack@, stack@.len() as int), PayloadKind::Bracing),
            stack@,
        ),
        checks_resolved(r.checks@, picks(rule_keys(r.rules@), stack_state(stack@, stack@.len() as int), PayloadKind::Check), stack@),
        warnings_view(r.warnings@) == stack_warnings(stack@, stack@.len() as int),
{
    let mut defaults = FramingDefaults::irc_2021_starter();
    let mut entries: Vec<Entry> = Vec::new();
    let mut warnings: Vec<(String, String)> = Vec::new();
    let n = stack.len();
    let mut s: usize = 0;
    proof {
        assert(entries_map(entries@) =~= Map::empty());
    }
    while s < n
        invariant
            s <= n,
            n == stack@.len(),
            distinct_rules(entries@),
            map_valid(entries_map(entries@), stack@),
            entries_map(entries@) == stack_state(stack@, s as int),
            warnings_view(warnings@) == stack_warnings(stack@, s as int),
            defaults == if s == 0 {
                starter_defaults()
            } else {
                stack@[s - 1].tables.defaults
            },
        decreases n - s,
    {
        let pack: &StandardsPack = stack[s];
        defaults = pack.tables.defaults;
        let ghost w0 = warnings_view(warnings@);
        apply_pack(&mut entries, &mut warnings, pack, s, Ghost(stack@));
        proof {
            let p = *stack@[s as int];
            assert(stack_warnings(stack@, s as int + 1) == stack_warnings(stack@, s as int) + overlay_warnings(
                payloads_after(stack_state(stack@, s as int), p, s as int),
                p.id@,
                p.overlays@,
                p.overlays@.len() as int,
            ));
        }
        s = s + 1;
    }
    let ghost st = entries_map(entries@);
    proof {
        lemma_entries_map(entries@);
    }
    let mut rules: Vec<ResolvedRule> = Vec::new();
    let mut studs: Vec<(ElementId, StudTable)> = Vec::new();
    let mut headers: Vec<(ElementId, HeaderSpanTable)> = Vec::new();
    let mut fastening: Vec<(ElementId, FasteningSchedule)> = Vec::new();
    let mut bracing: Vec<(ElementId, BracingTable)> = Vec::new();
    let mut checks: Vec<(ElementId, ComplianceCheck)> = Vec::new();
    while entries.len() > 0
        invariant
            st == stack_state(stack@, n as int),
            n == stack@.len(),
            map_valid(st, stack@),
            distinct_rules(entries@),
            forall|k: Seq<char>| #[trigger] entries_map(entries@).contains_key(k) ==> st.contains_key(k) && entries_map(
                entries@,
            )[k] == st[k],
            forall|k: Seq<char>| #[trigger] st.contains_key(k) ==> entries_map(entries@).contains_key(k) || rule_keys(
                rules@,
            ).contains(k),
            rules@.len() + entries@.len() == st.dom().len(),
            forall|i: int, j: int| 0 <= i < j < rules@.len() ==> seq_lt(#[trigger] rules@[i].rule@, #[trigger] rules@[j].rule@),
            forall|i: int, e: int| 0 <= i < rules@.len() && 0 <= e < entries@.len() ==> seq_lt(#[trigger] rules@[i].rule@, #[trigger] entries@[e].rule@),
            forall|i: int| 0 <= i < rules@.len() ==> st.contains_key(#[trigger] rules@[i].rule@) && rule_records(rules@[i], st[rules@[i].rule@]),
            studs_resolved(studs@, picks(rule_keys(rules@), st, PayloadKind::Stud), stack@),
            headers_resolved(headers@, picks(rule_keys(rules@), st, PayloadKind::Header), stack@),
            fastening_resolved(fastening@, picks(rule_keys(rules@), st, PayloadKind::Fastening), stack@),
            bracing_resolved(bracing@, picks(rule_keys(rules@), st, PayloadKind::Bracing), stack@),
            checks_resolved(checks@, picks(rule_keys(rules@), st, PayloadKind::Check), stack@),
        decreases entries@.len(),
    {
        let m = least_rule(&entries);
        let ghost before = entries@;
        let ghost keys = rule_keys(rules@);
        proof {
            lemma_entries_map(before);
            lemma_take_out(before, m as int);
        }
        let e = entries.remove(m);
        let ghost es = entry_state(e);
        proof {
            assert(entries_map(before).contains_key(before[m as int].rule@));
            assert(st.contains_key(e.rule@) && st[e.rule@] == es);
            assert(state_valid(es, stack@));
        }
        if e.waived.is_none() {
            match e.kind {
                PayloadKind::Stud => {
                    studs.push((e.pack.clone(), copy_stud_table(&stack[e.source].tables.studs[e.index])));
                },
                PayloadKind::Header => {
                    headers.push((e.pack.clone(), copy_header_table(&stack[e.source].tables.headers[e.index])));
                },
                PayloadKind::Fastening => {
                    fastening.push((e.pack.clone(), copy_fastening_schedule(&stack[e.source].tables.fastening[e.index])));
                },
                PayloadKind::Bracing => {
                    bracing.push((e.pack.clone(), copy_bracing_table(&stack[e.source].tables.bracing[e.index])));
                },
                PayloadKind::Check => {
                    let severity = match e.severity {
                        Some(v) => v,
                        None => CheckSeverity::Required,
                    };
                    checks.push((e.pack.clone(), copy_check(&stack[e.source].checks[e.index], severity)));
                },
            }
        }
        let rule = ResolvedRule {
            pack: e.pack,
            rule: e.rule,
            citation: e.citation,
            severity: e.severity,
            waived: e.waived,
            chain: e.chain,
        };
        rules.push(rule);
        proof {
            let k = rule.rule@;
            assert(rule_keys(rules@) =~= keys.push(k));
            assert(keys.push(k).drop_last() =~= keys);
            assert(rule_records(rule, st[k]));
            assert forall|j: int| 0 <= j < entries@.len() implies seq_lt(k, #[trigger] entries@[j].rule@) by {
                let oj = if j < m {
                    j
                } else {
                    j + 1
                };
                assert(entries@[j] == before[oj]);
                assert(seq_le(before[m as int].rule@, before[oj].rule@));
                assert(before[m as int].rule@ != before[oj].rule@);
            }
            assert forall|i: int, j: int| 0 <= i < rules@.len() && 0 <= j < entries@.len() implies seq_lt(
                #[trigger] rules@[i].rule@,
                #[trigger] entries@[j].rule@,
            ) by {
                let oj = if j < m {
                    j
                } else {
                    j + 1
                };
                assert(entries@[j] == before[oj]);
                if i < rules@.len() - 1 {
                    assert(rules@[i] == old_rules_at(rules@, i));
                }
            }
            assert forall|kk: Seq<char>| #[trigger] st.contains_key(kk) implies entries_map(entries@).contains_key(kk) || rule_keys(
                rules@,
            ).contains(kk) by {
                if kk == k {
                    assert(rule_keys(rules@)[rules@.len() - 1] == k);
                } else if keys.contains(kk) {
                    let q = choose|q: int| 0 <= q < keys.len() && keys[q] == kk;
                    assert(rule_keys(rules@)[q] == kk);
                } else {
                    assert(entries_map(before).contains_key(kk));
                }
            }
        }
    }
    proof {
        assert(rule_keys(rules@).len() == rules@.len());
    }
    ResolvedStandards { defaults, studs, headers, fastening, bracing, checks, rules, warnings }
}

spec fn old_rules_at(rules: Seq<ResolvedRule>, i: int) -> ResolvedRule {
    rules[i]
}

/// The positions in `m.standards_packs` of the packs that the first `k` ids of
/// the model's standards stack name; ids naming no pack are skipped.
pub open spec fn stack_positions(m: BuildingModel, k: int) -> Seq<int>
    decreases k,
{
    if k <= 0 {
        Seq::empty()
    } else {
        let p = stack_positions(m, k - 1);
        let i = pack_index(m.standards_packs@, m.standards@[k - 1]@);
        if i >= 0 {
            p.push(i)
        } else {
            p
        }
    }
}

/// `stack` is the model's standards stack.
pub open spec fn model_stack(m: BuildingModel, stack: Seq<&StandardsPack>) -> bool {
    let positions = stack_positions(m, m.standards@.len() as int);
    &&& stack.len() == positions.len()
    &&& forall|i: int| 0 <= i < stack.len() ==> *(#[trigger] stack[i]) == m.standards_packs@[positions[i]]
}

/// `r` is the resolution of `stack`.
pub open spec fn resolution_of(stack: Seq<&StandardsPack>, r: ResolvedStandards) -> bool {
    let st = stack_state(stack, stack.len() as int);
    &&& r.defaults == if stack.len() == 0 {
        starter_defaults()
    } else {
        stack.last().tables.defaults
    }
    &&& rules_resolved(r.rules@, st)
    &&& studs_resolved(r.studs@, picks(rule_keys(r.rules@), st, PayloadKind::Stud), stack)
    &&& headers_resolved(r.headers@, picks(rule_keys(r.rules@), st, PayloadKind::Header), stack)
    &&& fastening_resolved(r.fastening@, picks(rule_keys(r.rules@), st, PayloadKind::Fastening), stack)
    &&& bracing_resolved(r.bracing@, picks(rule_keys(r.rules@), st, PayloadKind::Bracing), stack)
    &&& checks_resolved(r.checks@, picks(rule_keys(r.rules@), st, PayloadKind::Check), stack)
    &&& warnings_view(r.warnings@) == stack_warnings(stack, stack.len() as int)
}

impl BuildingModel {
    /// The resolution of the model's standards stack: the packs that its ids
    /// name, in stack order.
    pub fn resolved_standards(&self) -> (r: ResolvedStandards)
        ensures
            exists|stack: Seq<&StandardsPack>| model_stack(*self, stack) && resolution_of(stack, r),
    {
        let mut stack: Vec<&StandardsPack> = Vec::new();
        let mut k: usize = 0;
        while k < self.standards.len()
            invariant
                k <= self.standards@.len(),
                stack@.len() == stack_positions(*self, k as int).len(),
                forall|i: int| 0 <= i < stack@.len() ==> *(#[trigger] stack@[i]) == self.standards_packs@[stack_positions(
                    *self,
                    k as int,
                )[i]],
            decreases self.standards@.len() - k,
        {
            match find_pack(&self.standards_packs, &self.standards[k]) {
                Some(i) => {
                    stack.push(&self.standards_packs[i]);
                },
                None => {},
            }
            k = k + 1;
        }
        let r = resolve_standards(&stack);
        assert(model_stack(*self, stack@));
        r
    }
}
} // verus!
