//! The flag-gated reference resource: a declaration of activated
//! flags, the flag universe and implication edges read from the
//! resource's preamble, closure of the activated set, and the region
//! filter that resolves the resource body.

use vstd::prelude::*;
use crate::error::ErrModel;
use crate::error::FixtureError;
use crate::text::contains_str;
use crate::text::find_from;
use crate::text::lemma_find_from_bounds;
use crate::text::spec_contains;
use crate::text::spec_find;
use crate::text::spec_split;
use crate::text::spec_split_first;
use crate::text::spec_starts_with;
use crate::text::spec_trim;
use crate::text::split_first_str;
use crate::text::split_str;
use crate::text::starts_with;
use crate::text::str_eq;
use crate::text::trim_slice;
use crate::text::vec_contains_str;
use crate::text::views_of;
use crate::fixture::pair_views;

verus! {

/// The flag-declaration marker that may open a fixture.
pub open spec fn minicore_marker() -> Seq<char> {
    "//- minicore:"@
}

/// Mathematical model of a `MiniCore`: the activated flags and the
/// valid flags, each in declaration order.
#[verifier::ext_equal]
pub struct MiniCoreModel {
    pub activated: Seq<Seq<char>>,
    pub valid: Seq<Seq<char>>,
}

/// The flag state of one reference-resource inclusion request.
pub struct MiniCore {
    pub activated_flags: Vec<String>,
    pub valid_flags: Vec<String>,
}

impl View for MiniCore {
    type V = MiniCoreModel;

    open spec fn view(&self) -> MiniCoreModel {
        MiniCoreModel {
            activated: views_of(self.activated_flags@),
            valid: views_of(self.valid_flags@),
        }
    }
}

/// Activates each named flag once; a repeated name is fatal.
pub open spec fn spec_flag_fold(acc: Seq<Seq<char>>, entries: Seq<Seq<char>>) -> Result<
    Seq<Seq<char>>,
    ErrModel,
>
    decreases entries.len(),
{
    if entries.len() == 0 {
        Ok(acc)
    } else if acc.contains(entries[0]) {
        Err(ErrModel::DuplicateFlag { flag: entries[0] })
    } else {
        spec_flag_fold(acc.push(entries[0]), entries.drop_first())
    }
}

/// The flag state declared by a flag-declaration line: the named flags
/// become the activated set, and no valid flags are known yet.
pub open spec fn spec_minicore_parse(line: Seq<char>) -> Result<MiniCoreModel, ErrModel> {
    let rest = spec_trim(line.skip(minicore_marker().len() as int));
    match spec_flag_fold(Seq::empty(), spec_split(rest, ", "@)) {
        Ok(act) => Ok(MiniCoreModel { activated: act, valid: Seq::empty() }),
        Err(e) => Err(e),
    }
}

impl MiniCore {
    /// Whether `flag` has been activated.
    pub fn has_flag(&self, flag: &str) -> (r: bool)
        ensures
            r == self@.activated.contains(flag@),
    {
        vec_contains_str(&self.activated_flags, flag)
    }

    /// Checks that `flag` is among the declared valid flags.
    pub fn assert_valid_flag(&self, flag: &str) -> (r: Result<(), FixtureError>)
        ensures
            r is Ok <==> self@.valid.contains(flag@),
            r matches Err(e) ==> e@ == (ErrModel::InvalidFlag { flag: flag@ }),
    {
        if vec_contains_str(&self.valid_flags, flag) {
            Ok(())
        } else {
            Err(FixtureError::InvalidFlag { flag: flag.to_owned() })
        }
    }

    /// Parses the flag-declaration line into the initially activated
    /// flag set.
    #[verifier::loop_isolation(false)]
    pub fn parse(line: &str) -> (r: Result<MiniCore, FixtureError>)
        requires
            spec_starts_with(line@, minicore_marker()),
        ensures
            match r {
                Ok(m) => spec_minicore_parse(line@) == Ok::<MiniCoreModel, ErrModel>(m@),
                Err(e) => spec_minicore_parse(line@) == Err::<MiniCoreModel, ErrModel>(e@),
            },
    {
        let n = line.unicode_len();
        proof {
            reveal_strlit("//- minicore:");
            reveal_strlit(", ");
        }
        let rest = trim_slice(line.substring_char(13, n));
        proof {
            assert(line@.subrange(13, n as int) =~= line@.skip(13));
        }
        let entries = split_str(rest, ", ");
        let ghost evs: Seq<Seq<char>> = views_of(entries@);
        let mut acc: Vec<String> = Vec::new();
        let mut i: usize = 0;
        proof {
            assert(evs.skip(0) =~= evs);
            assert(views_of(acc@) =~= Seq::<Seq<char>>::empty());
        }
        while i < entries.len()
            invariant
                0 <= i <= entries@.len(),
                evs == views_of(entries@),
                evs.len() == entries@.len(),
                spec_flag_fold(views_of(acc@), evs.skip(i as int)) == spec_flag_fold(
                    Seq::empty(),
                    evs,
                ),
            decreases entries@.len() - i,
        {
            proof {
                assert(evs.skip(i as int)[0] == evs[i as int]);
                assert(evs[i as int] == entries@[i as int]@);
                assert(evs.skip(i as int).drop_first() =~= evs.skip(i + 1));
            }
            if vec_contains_str(&acc, entries[i].as_str()) {
                return Err(FixtureError::DuplicateFlag { flag: entries[i].clone() });
            }
            let e = entries[i].clone();
            let ghost a0 = acc@;
            acc.push(e);
            proof {
                assert(views_of(acc@) =~= views_of(a0).push(entries@[i as int]@));
            }
            i = i + 1;
        }
        proof {
            assert(evs.skip(entries@.len() as int) =~= Seq::<Seq<char>>::empty());
        }
        let m = MiniCore { activated_flags: acc, valid_flags: Vec::new() };
        proof {
            assert(m@.valid =~= Seq::<Seq<char>>::empty());
        }
        Ok(m)
    }
}

// ---------------------------------------------------------------------
// The reference resource: preamble, closure, region filter
// ---------------------------------------------------------------------

/// The documentation marker of preamble lines.
pub open spec fn doc_marker() -> Seq<char> {
    "//!"@
}

/// The sentinel phrase that switches flag-declaration parsing on.
pub open spec fn flags_sentinel() -> Seq<char> {
    "Available flags:"@
}

/// The marker that opens a named region.
pub open spec fn region_marker() -> Seq<char> {
    "// region:"@
}

/// The marker that closes the innermost region.
pub open spec fn endregion_marker() -> Seq<char> {
    "// endregion:"@
}

/// The marker of a single-line region.
pub open spec fn inline_marker() -> Seq<char> {
    "// :"@
}

/// Records the implication edges of one flag's dependency list; every
/// dependency must already be valid, and blank entries are skipped.
pub open spec fn spec_deps_fold(
    valid: Seq<Seq<char>>,
    imps: Seq<(Seq<char>, Seq<char>)>,
    flag: Seq<char>,
    deps: Seq<Seq<char>>,
) -> Result<Seq<(Seq<char>, Seq<char>)>, ErrModel>
    decreases deps.len(),
{
    if deps.len() == 0 {
        Ok(imps)
    } else {
        let d = spec_trim(deps[0]);
        if d.len() == 0 {
            spec_deps_fold(valid, imps, flag, deps.drop_first())
        } else if !valid.contains(d) {
            Err(ErrModel::InvalidFlag { flag: d })
        } else {
            spec_deps_fold(valid, imps.push((flag, d)), flag, deps.drop_first())
        }
    }
}

/// Consumes the documentation preamble: flag declarations begin after
/// the sentinel phrase, and the preamble ends at the first line not
/// marked as documentation, which must be blank.  Returns the valid
/// flags, the implication edges, and the index of the first body line.
pub open spec fn spec_preamble_fold(
    valid: Seq<Seq<char>>,
    imps: Seq<(Seq<char>, Seq<char>)>,
    parsing: bool,
    ls: Seq<Seq<char>>,
    i: int,
) -> Result<(Seq<Seq<char>>, Seq<(Seq<char>, Seq<char>)>, int), ErrModel>
    decreases ls.len() - i when 0 <= i <= ls.len()
{
    if i >= ls.len() {
        Ok((valid, imps, i))
    } else {
        let line = ls[i];
        if !spec_starts_with(line, doc_marker()) {
            if spec_trim(line).len() != 0 {
                Err(ErrModel::PreambleEnd { line })
            } else {
                Ok((valid, imps, i + 1))
            }
        } else {
            let content = line.skip(doc_marker().len() as int) + "\n"@;
            let parsing2 = parsing || spec_contains(content, flags_sentinel());
            if parsing {
                let parts = match spec_split_first(content, ":"@) {
                    Some(p) => p,
                    None => (content, Seq::empty()),
                };
                let flag = spec_trim(parts.0);
                let valid2 = valid.push(flag);
                match spec_deps_fold(valid2, imps, flag, spec_split(parts.1, ", "@)) {
                    Err(e) => Err(e),
                    Ok(imps2) => spec_preamble_fold(valid2, imps2, parsing2, ls, i + 1),
                }
            } else {
                spec_preamble_fold(valid, imps, parsing2, ls, i + 1)
            }
        }
    }
}

/// Checks that every activated flag is valid, in order.
pub open spec fn spec_act_check(valid: Seq<Seq<char>>, act: Seq<Seq<char>>, i: int) -> Result<
    (),
    ErrModel,
>
    decreases act.len() - i when 0 <= i <= act.len()
{
    if i >= act.len() {
        Ok(())
    } else if !valid.contains(act[i]) {
        Err(ErrModel::InvalidFlag { flag: act[i] })
    } else {
        spec_act_check(valid, act, i + 1)
    }
}

/// The members of a sequence, as a set.
pub open spec fn set_of(s: Seq<Seq<char>>) -> Set<Seq<char>> {
    Set::new(|f: Seq<char>| s.contains(f))
}

/// `s` is closed under the implication edges: whenever a source is in
/// `s`, so is its target.
pub open spec fn closed_under(s: Set<Seq<char>>, edges: Seq<(Seq<char>, Seq<char>)>) -> bool {
    forall|i: int|
        0 <= i < edges.len() && s.contains((#[trigger] edges[i]).0) ==> s.contains(edges[i].1)
}

/// The transitive closure of `init` under the implication edges: the
/// least set that contains `init` and is closed under every edge.
pub open spec fn spec_closure(init: Set<Seq<char>>, edges: Seq<(Seq<char>, Seq<char>)>) -> Set<
    Seq<char>,
> {
    Set::new(
        |f: Seq<char>|
            forall|s: Set<Seq<char>>|
                init.subset_of(s) && closed_under(s, edges) ==> #[trigger] s.contains(f),
    )
}

/// Closure is monotone and complete: the closure contains every
/// initially activated flag, and for every edge whose source is
/// activated the target is activated too.
pub proof fn lemma_closure_complete(init: Set<Seq<char>>, edges: Seq<(Seq<char>, Seq<char>)>)
    ensures
        init.subset_of(spec_closure(init, edges)),
        closed_under(spec_closure(init, edges), edges),
{
    let c = spec_closure(init, edges);
    assert forall|f: Seq<char>| init.contains(f) implies c.contains(f) by {
        assert forall|s: Set<Seq<char>>|
            init.subset_of(s) && closed_under(s, edges) implies #[trigger] s.contains(f) by {}
    }
    assert forall|i: int| 0 <= i < edges.len() && c.contains((#[trigger] edges[i]).0) implies c
        .contains(edges[i].1) by {
        let u = edges[i].0;
        let v = edges[i].1;
        assert forall|s: Set<Seq<char>>|
            init.subset_of(s) && closed_under(s, edges) implies #[trigger] s.contains(v) by {
            assert(s.contains(u));
        }
    }
}

/// Closure is least: it is inside every closed superset of `init`.
pub proof fn lemma_closure_least(
    init: Set<Seq<char>>,
    edges: Seq<(Seq<char>, Seq<char>)>,
    s: Set<Seq<char>>,
)
    requires
        init.subset_of(s),
        closed_under(s, edges),
    ensures
        spec_closure(init, edges).subset_of(s),
{
}

/// Closure is idempotent: closing a closed set gives it back.
pub proof fn lemma_closure_idempotent(init: Set<Seq<char>>, edges: Seq<(Seq<char>, Seq<char>)>)
    ensures
        spec_closure(spec_closure(init, edges), edges) == spec_closure(init, edges),
{
    let c = spec_closure(init, edges);
    lemma_closure_complete(init, edges);
    lemma_closure_complete(c, edges);
    lemma_closure_least(c, edges, c);
    assert(spec_closure(c, edges) =~= c);
}

/// Every name on the stack is activated.
pub open spec fn stack_all_active(stack: Seq<Seq<char>>, act: Set<Seq<char>>) -> bool {
    forall|i: int| 0 <= i < stack.len() ==> act.contains(#[trigger] stack[i])
}

/// Evaluates one line's region stack from position `i` up: a name with
/// leading whitespace or outside the valid flags is fatal; otherwise
/// the line is kept exactly when every name is activated.
pub open spec fn spec_eval_stack(
    stack: Seq<Seq<char>>,
    act: Set<Seq<char>>,
    valid: Seq<Seq<char>>,
    i: int,
) -> Result<bool, ErrModel>
    decreases stack.len() - i when 0 <= i <= stack.len()
{
    if i >= stack.len() {
        Ok(true)
    } else {
        let r = stack[i];
        if r.len() > 0 && r[0] == ' ' {
            Err(ErrModel::RegionLeadingSpace { region: r })
        } else if !valid.contains(r) {
            Err(ErrModel::InvalidFlag { flag: r })
        } else {
            match spec_eval_stack(stack, act, valid, i + 1) {
                Err(e) => Err(e),
                Ok(k) => Ok(k && act.contains(r)),
            }
        }
    }
}

/// The filter's keep decision is exactly the conjunction over the
/// stack: a line is kept if and only if every enclosing region's flag
/// is activated; no line with a non-activated enclosing flag is kept.
pub proof fn lemma_eval_stack_keep(
    stack: Seq<Seq<char>>,
    act: Set<Seq<char>>,
    valid: Seq<Seq<char>>,
    i: int,
)
    requires
        0 <= i <= stack.len(),
    ensures
        spec_eval_stack(stack, act, valid, i) matches Ok(k) ==> (k <==> forall|j: int|
            i <= j < stack.len() ==> act.contains(#[trigger] stack[j])),
    decreases stack.len() - i,
{
    if i < stack.len() {
        lemma_eval_stack_keep(stack, act, valid, i + 1);
    }
}

/// A kept line's stack is fully activated, and a fully activated (or
/// empty) stack keeps its line.
pub proof fn lemma_region_keep_iff(stack: Seq<Seq<char>>, act: Set<Seq<char>>, valid: Seq<Seq<char>>)
    ensures
        spec_eval_stack(stack, act, valid, 0) matches Ok(k) ==> (k <==> stack_all_active(
            stack,
            act,
        )),
{
    lemma_eval_stack_keep(stack, act, valid, 0);
}

/// Streams the body lines: region markers push and pop the stack and
/// are dropped; any other line is kept exactly when its whole stack is
/// activated; every evaluated name is recorded as seen.
pub open spec fn spec_filter_fold(
    ls: Seq<Seq<char>>,
    i: int,
    stack: Seq<Seq<char>>,
    seen: Set<Seq<char>>,
    buf: Seq<char>,
    act: Set<Seq<char>>,
    valid: Seq<Seq<char>>,
) -> Result<(Seq<char>, Set<Seq<char>>), ErrModel>
    decreases ls.len() - i when 0 <= i <= ls.len()
{
    if i >= ls.len() {
        Ok((buf, seen))
    } else {
        let tr = spec_trim(ls[i]);
        if spec_starts_with(tr, region_marker()) {
            let stack2 = stack.push(tr.skip(region_marker().len() as int));
            spec_filter_fold(ls, i + 1, stack2, seen, buf, act, valid)
        } else if spec_starts_with(tr, endregion_marker()) {
            let name = tr.skip(endregion_marker().len() as int);
            if stack.len() == 0 {
                Err(ErrModel::RegionUnderflow { region: name })
            } else if stack.last() != name {
                Err(ErrModel::RegionMismatch { open: stack.last(), close: name })
            } else {
                spec_filter_fold(ls, i + 1, stack.drop_last(), seen, buf, act, valid)
            }
        } else {
            let stack1 = match spec_find(tr, inline_marker()) {
                Some(ix) => stack.push(tr.skip(ix + inline_marker().len())),
                None => stack,
            };
            match spec_eval_stack(stack1, act, valid, 0) {
                Err(e) => Err(e),
                Ok(keep) => {
                    let seen1 = seen.union(set_of(stack1));
                    let buf1 = if keep {
                        buf + ls[i]
                    } else {
                        buf
                    };
                    let stack2 = if spec_find(tr, inline_marker()) is Some {
                        stack1.drop_last()
                    } else {
                        stack1
                    };
                    spec_filter_fold(ls, i + 1, stack2, seen1, buf1, act, valid)
                },
            }
        }
    }
}

/// Checks that every valid flag was seen gating some region.
pub open spec fn spec_unused_check(valid: Seq<Seq<char>>, seen: Set<Seq<char>>, i: int) -> Result<
    (),
    ErrModel,
>
    decreases valid.len() - i when 0 <= i <= valid.len()
{
    if i >= valid.len() {
        Ok(())
    } else if !seen.contains(valid[i]) {
        Err(ErrModel::UnusedFlag { flag: valid[i] })
    } else {
        spec_unused_check(valid, seen, i + 1)
    }
}

proof fn lemma_set_of_push(s: Seq<Seq<char>>, x: Seq<char>)
    ensures
        set_of(s.push(x)) == set_of(s).insert(x),
{
    assert forall|f: Seq<char>| set_of(s.push(x)).contains(f) implies set_of(s).insert(x).contains(
        f,
    ) by {
        let k = choose|k: int| 0 <= k < s.push(x).len() && s.push(x)[k] == f;
        if k < s.len() {
            assert(s[k] == f);
        }
    }
    assert forall|f: Seq<char>| set_of(s).insert(x).contains(f) implies set_of(s.push(x)).contains(
        f,
    ) by {
        if f == x {
            assert(s.push(x)[s.len() as int] == f);
        } else {
            let k = choose|k: int| 0 <= k < s.len() && s[k] == f;
            assert(s.push(x)[k] == f);
        }
    }
    assert(set_of(s.push(x)) =~= set_of(s).insert(x));
}

proof fn lemma_set_of_finite(s: Seq<Seq<char>>)
    ensures
        set_of(s).finite(),
    decreases s.len(),
{
    if s.len() == 0 {
        assert(set_of(s) =~= Set::<Seq<char>>::empty());
    } else {
        lemma_set_of_finite(s.drop_last());
        lemma_set_of_push(s.drop_last(), s.last());
        assert(s.drop_last().push(s.last()) =~= s);
    }
}

/// The targets of the implication edges.
pub open spec fn edge_targets(edges: Seq<(Seq<char>, Seq<char>)>) -> Set<Seq<char>> {
    Set::new(
        |f: Seq<char>| exists|i: int| 0 <= i < edges.len() && (#[trigger] edges[i]).1 == f,
    )
}

proof fn lemma_edge_targets_finite(edges: Seq<(Seq<char>, Seq<char>)>)
    ensures
        edge_targets(edges).finite(),
    decreases edges.len(),
{
    if edges.len() == 0 {
        assert(edge_targets(edges) =~= Set::<Seq<char>>::empty());
    } else {
        let rest = edges.drop_last();
        lemma_edge_targets_finite(rest);
        assert forall|f: Seq<char>| edge_targets(edges).contains(f) implies edge_targets(
            rest,
        ).insert(edges.last().1).contains(f) by {
            let i = choose|i: int| 0 <= i < edges.len() && (#[trigger] edges[i]).1 == f;
            if i < rest.len() {
                assert(rest[i] == edges[i]);
                assert(edge_targets(rest).contains(f));
            }
        }
        assert forall|f: Seq<char>| edge_targets(rest).insert(edges.last().1).contains(
            f,
        ) implies edge_targets(edges).contains(f) by {
            if f == edges.last().1 {
                assert((edges[edges.len() - 1]).1 == f);
            } else {
                let i = choose|i: int| 0 <= i < rest.len() && (#[trigger] rest[i]).1 == f;
                assert((edges[i]).1 == f);
            }
        }
        assert(edge_targets(edges) =~= edge_targets(rest).insert(edges.last().1));
    }
}

/// Expands the activated flags to their transitive closure under the
/// implication edges, scanning every edge until a full scan changes
/// nothing.
#[verifier::loop_isolation(false)]
fn closure_resolve(act: &mut Vec<String>, imps: &Vec<(String, String)>)
    ensures
        set_of(views_of(final(act)@)) == spec_closure(
            set_of(views_of(old(act)@)),
            pair_views(imps@),
        ),
{
    let ghost init: Seq<Seq<char>> = views_of(act@);
    let ghost edges: Seq<(Seq<char>, Seq<char>)> = pair_views(imps@);
    let ghost cl: Set<Seq<char>> = spec_closure(set_of(init), edges);
    let ghost universe: Set<Seq<char>> = set_of(init).union(edge_targets(edges));
    proof {
        lemma_set_of_finite(init);
        lemma_edge_targets_finite(edges);
        lemma_closure_complete(set_of(init), edges);
    }
    let mut done = false;
    while !done
        invariant
            set_of(views_of(act@)).subset_of(cl),
            set_of(init).subset_of(set_of(views_of(act@))),
            set_of(views_of(act@)).subset_of(universe),
            done ==> set_of(views_of(act@)) == cl,
        decreases
            universe.difference(set_of(views_of(act@))).len(),
            if done {
                0int
            } else {
                1int
            },
    {
        let ghost snap: Seq<Seq<char>> = views_of(act@);
        let mut changed = false;
        let mut k: usize = 0;
        while k < imps.len()
            invariant
                0 <= k <= imps@.len(),
                set_of(views_of(act@)).subset_of(cl),
                set_of(init).subset_of(set_of(views_of(act@))),
                set_of(views_of(act@)).subset_of(universe),
                !changed ==> views_of(act@) == snap,
                !changed ==> forall|j: int|
                    0 <= j < k ==> (set_of(snap).contains((#[trigger] edges[j]).0) ==> set_of(
                        snap,
                    ).contains(edges[j].1)),
                changed ==> universe.difference(set_of(views_of(act@))).len() < universe.difference(
                    set_of(snap),
                ).len(),
                universe.difference(set_of(views_of(act@))).len() <= universe.difference(
                    set_of(snap),
                ).len(),
            decreases imps@.len() - k,
        {
            proof {
                assert(edges[k as int] == (imps@[k as int].0@, imps@[k as int].1@));
            }
            let u_in = vec_contains_str(act, imps[k].0.as_str());
            let v_in = vec_contains_str(act, imps[k].1.as_str());
            if u_in && !v_in {
                let ghost a0: Seq<Seq<char>> = views_of(act@);
                let ghost tgt: Seq<char> = edges[k as int].1;
                let v = imps[k].1.clone();
                act.push(v);
                proof {
                    assert(views_of(act@) =~= a0.push(tgt));
                    lemma_set_of_push(a0, tgt);
                    assert(cl.contains(tgt)) by {
                        assert(cl.contains(edges[k as int].0));
                        assert(closed_under(cl, edges));
                    }
                    assert(edge_targets(edges).contains(tgt));
                    assert(universe.difference(set_of(views_of(act@))) =~= universe.difference(
                        set_of(a0),
                    ).remove(tgt));
                    assert(universe.difference(set_of(a0)).contains(tgt));
                }
                changed = true;
            }
            k = k + 1;
        }
        if !changed {
            proof {
                assert(closed_under(set_of(views_of(act@)), edges));
                lemma_closure_least(set_of(init), edges, set_of(views_of(act@)));
                assert(set_of(views_of(act@)) =~= cl);
            }
            done = true;
        }
    }
}

/// The resolved text of the reference resource under the flag state
/// `m`: the preamble yields the flag universe and implications, the
/// activated set is closed under the implications, and the body is
/// filtered by region.
pub open spec fn spec_source_code(m: MiniCoreModel, raw: Seq<char>) -> Result<Seq<char>, ErrModel> {
    let ls = spec_split(raw, "\n"@);
    match spec_preamble_fold(m.valid, Seq::empty(), false, ls, 0) {
        Err(e) => Err(e),
        Ok(pr) => match spec_act_check(pr.0, m.activated, 0) {
            Err(e) => Err(e),
            Ok(u) => {
                let act = spec_closure(set_of(m.activated), pr.1);
                match spec_filter_fold(ls, pr.2, Seq::empty(), Set::empty(), Seq::empty(), act, pr.0) {
                    Err(e) => Err(e),
                    Ok(bs) => match spec_unused_check(pr.0, bs.1, 0) {
                        Err(e) => Err(e),
                        Ok(u2) => Ok(bs.0),
                    },
                }
            },
        },
    }
}

impl MiniCore {
    /// Resolves the reference resource `raw` for this flag state: the
    /// preamble yields the flag universe and implication edges, the
    /// activated set is closed under the implications, and exactly the
    /// body lines whose whole region stack is activated are kept.
    #[verifier::loop_isolation(false)]
    pub fn source_code(self, raw: &str) -> (r: Result<String, FixtureError>)
        ensures
            match r {
                Ok(out) => spec_source_code(self@, raw@) == Ok::<Seq<char>, ErrModel>(out@),
                Err(e) => spec_source_code(self@, raw@) == Err::<Seq<char>, ErrModel>(e@),
            },
    {
        let ghost m0: MiniCoreModel = self@;
        let mut mc = self;
        proof {
            reveal_strlit("\n");
            reveal_strlit("//!");
            reveal_strlit(":");
            reveal_strlit(", ");
            reveal_strlit("Available flags:");
            reveal_strlit("// region:");
            reveal_strlit("// endregion:");
            reveal_strlit("// :");
        }
        let lines = split_str(raw, "\n");
        let ghost lvs: Seq<Seq<char>> = views_of(lines@);
        let mut imps: Vec<(String, String)> = Vec::new();
        let mut parsing = false;
        let mut i: usize = 0;
        let mut body_start: usize = 0;
        let mut in_preamble = true;
        proof {
            assert(pair_views(imps@) =~= Seq::<(Seq<char>, Seq<char>)>::empty());
        }
        while in_preamble
            invariant
                0 <= i <= lvs.len(),
                lvs.len() == lines@.len(),
                views_of(mc.activated_flags@) == m0.activated,
                in_preamble ==> spec_preamble_fold(m0.valid, Seq::empty(), false, lvs, 0)
                    == spec_preamble_fold(
                    views_of(mc.valid_flags@),
                    pair_views(imps@),
                    parsing,
                    lvs,
                    i as int,
                ),
                !in_preamble ==> spec_preamble_fold(m0.valid, Seq::empty(), false, lvs, 0) == Ok::<
                    (Seq<Seq<char>>, Seq<(Seq<char>, Seq<char>)>, int),
                    ErrModel,
                >((views_of(mc.valid_flags@), pair_views(imps@), body_start as int)),
                !in_preamble ==> body_start <= lvs.len(),
            decreases lvs.len() - i + (if in_preamble {
                1int
            } else {
                0int
            }),
        {
            if i == lines.len() {
                body_start = i;
                in_preamble = false;
            } else {
                proof {
                    assert(lvs[i as int] == lines@[i as int]@);
                }
                if !starts_with(lines[i].as_str(), "//!") {
                    let tr = trim_slice(lines[i].as_str());
                    if tr.unicode_len() != 0 {
                        return Err(FixtureError::PreambleEnd { line: lines[i].clone() });
                    }
                    body_start = i + 1;
                    in_preamble = false;
                } else {
                    let ln = lines[i].as_str().unicode_len();
                    let mut content = lines[i].as_str().substring_char(3, ln).to_owned();
                    content.append("\n");
                    let ghost contentv: Seq<char> = content@;
                    proof {
                        assert(contentv =~= lvs[i as int].skip(3) + "\n"@);
                    }
                    let parsing2 = parsing || contains_str(content.as_str(), "Available flags:");
                    if parsing {
                        let ghost valid0 = views_of(mc.valid_flags@);
                        let ghost imps0 = pair_views(imps@);
                        let parts = match split_first_str(content.as_str(), ":") {
                            Some(p) => p,
                            None => (content, String::new()),
                        };
                        let flag_s = trim_slice(parts.0.as_str()).to_owned();
                        let ghost flagv: Seq<char> = flag_s@;
                        mc.valid_flags.push(flag_s.clone());
                        proof {
                            assert(views_of(mc.valid_flags@) =~= valid0.push(flagv));
                        }
                        let deps = split_str(parts.1.as_str(), ", ");
                        let ghost dvs: Seq<Seq<char>> = views_of(deps@);
                        let mut j: usize = 0;
                        proof {
                            assert(dvs.skip(0) =~= dvs);
                        }
                        while j < deps.len()
                            invariant
                                0 <= j <= dvs.len(),
                                dvs.len() == deps@.len(),
                                views_of(mc.valid_flags@) == valid0.push(flagv),
                                views_of(mc.activated_flags@) == m0.activated,
                                spec_deps_fold(
                                    valid0.push(flagv),
                                    pair_views(imps@),
                                    flagv,
                                    dvs.skip(j as int),
                                ) == spec_deps_fold(valid0.push(flagv), imps0, flagv, dvs),
                            decreases dvs.len() - j,
                        {
                            proof {
                                assert(dvs.skip(j as int)[0] == dvs[j as int]);
                                assert(dvs[j as int] == deps@[j as int]@);
                                assert(dvs.skip(j as int).drop_first() =~= dvs.skip(j + 1));
                            }
                            let d = trim_slice(deps[j].as_str());
                            if d.unicode_len() != 0 {
                                if !vec_contains_str(&mc.valid_flags, d) {
                                    return Err(FixtureError::InvalidFlag { flag: d.to_owned() });
                                }
                                let ghost ip0 = pair_views(imps@);
                                imps.push((flag_s.clone(), d.to_owned()));
                                proof {
                                    assert(pair_views(imps@) =~= ip0.push(
                                        (flagv, spec_trim(dvs[j as int])),
                                    ));
                                }
                            }
                            j = j + 1;
                        }
                        proof {
                            assert(dvs.skip(dvs.len() as int) =~= Seq::<Seq<char>>::empty());
                        }
                    }
                    parsing = parsing2;
                    i = i + 1;
                }
            }
        }
        let ghost validv: Seq<Seq<char>> = views_of(mc.valid_flags@);
        let ghost impsv: Seq<(Seq<char>, Seq<char>)> = pair_views(imps@);
        let mut a: usize = 0;
        while a < mc.activated_flags.len()
            invariant
                0 <= a <= m0.activated.len(),
                m0.activated.len() == mc.activated_flags@.len(),
                views_of(mc.activated_flags@) == m0.activated,
                spec_act_check(validv, m0.activated, a as int) == spec_act_check(
                    validv,
                    m0.activated,
                    0,
                ),
            decreases m0.activated.len() - a,
        {
            proof {
                assert(m0.activated[a as int] == mc.activated_flags@[a as int]@);
            }
            if !vec_contains_str(&mc.valid_flags, mc.activated_flags[a].as_str()) {
                return Err(FixtureError::InvalidFlag { flag: mc.activated_flags[a].clone() });
            }
            a = a + 1;
        }
        closure_resolve(&mut mc.activated_flags, &imps);
        let ghost act_set: Set<Seq<char>> = spec_closure(set_of(m0.activated), impsv);
        proof {
            assert(set_of(views_of(mc.activated_flags@)) == act_set);
        }
        let mut buf = String::new();
        let mut stack: Vec<String> = Vec::new();
        let mut seen: Vec<String> = Vec::new();
        let mut li: usize = body_start;
        proof {
            assert(views_of(stack@) =~= Seq::<Seq<char>>::empty());
            assert(set_of(views_of(seen@)) =~= Set::<Seq<char>>::empty());
        }
        while li < lines.len()
            invariant
                body_start <= li <= lvs.len(),
                lvs.len() == lines@.len(),
                set_of(views_of(mc.activated_flags@)) == act_set,
                views_of(mc.valid_flags@) == validv,
                spec_filter_fold(
                    lvs,
                    li as int,
                    views_of(stack@),
                    set_of(views_of(seen@)),
                    buf@,
                    act_set,
                    validv,
                ) == spec_filter_fold(
                    lvs,
                    body_start as int,
                    Seq::empty(),
                    Set::empty(),
                    Seq::empty(),
                    act_set,
                    validv,
                ),
            decreases lvs.len() - li,
        {
            proof {
                assert(lvs[li as int] == lines@[li as int]@);
            }
            let tr_s = trim_slice(lines[li].as_str());
            let ghost trv: Seq<char> = tr_s@;
            let trn = tr_s.unicode_len();
            if starts_with(tr_s, "// region:") {
                let ghost st0 = views_of(stack@);
                let name = tr_s.substring_char(10, trn).to_owned();
                proof {
                    assert(name@ =~= trv.skip(10));
                }
                stack.push(name);
                proof {
                    assert(views_of(stack@) =~= st0.push(trv.skip(10)));
                }
            } else if starts_with(tr_s, "// endregion:") {
                let name = tr_s.substring_char(13, trn);
                proof {
                    assert(name@ =~= trv.skip(13));
                }
                if stack.len() == 0 {
                    return Err(FixtureError::RegionUnderflow { region: name.to_owned() });
                }
                let ghost st0 = views_of(stack@);
                let prev = stack.pop().unwrap();
                proof {
                    assert(prev@ == st0.last());
                    assert(views_of(stack@) =~= st0.drop_last());
                }
                if !str_eq(prev.as_str(), name) {
                    return Err(FixtureError::RegionMismatch { open: prev, close: name.to_owned() });
                }
            } else {
                let ghost st0 = views_of(stack@);
                let inline_idx = find_from(tr_s, "// :", 0);
                let is_inline: bool;
                match inline_idx {
                    Some(ixx) => {
                        proof {
                            lemma_find_from_bounds(trv, "// :"@, 0);
                        }
                        let nm = tr_s.substring_char(ixx + 4, trn).to_owned();
                        proof {
                            assert(nm@ =~= trv.skip(ixx + 4));
                        }
                        stack.push(nm);
                        proof {
                            assert(views_of(stack@) =~= st0.push(trv.skip(ixx + 4)));
                        }
                        is_inline = true;
                    },
                    None => {
                        is_inline = false;
                    },
                }
                let ghost st1 = views_of(stack@);
                let mut keep = true;
                let mut si: usize = 0;
                let ghost seen0: Set<Seq<char>> = set_of(views_of(seen@));
                proof {
                    assert(st1.take(0) =~= Seq::<Seq<char>>::empty());
                    assert(set_of(views_of(seen@)) =~= seen0.union(set_of(st1.take(0))));
                }
                while si < stack.len()
                    invariant
                        0 <= si <= st1.len(),
                        st1.len() == stack@.len(),
                        views_of(stack@) == st1,
                        set_of(views_of(seen@)) == seen0.union(set_of(st1.take(si as int))),
                        spec_eval_stack(st1, act_set, validv, 0) == (match spec_eval_stack(
                            st1,
                            act_set,
                            validv,
                            si as int,
                        ) {
                            Err(e) => Err::<bool, ErrModel>(e),
                            Ok(k) => Ok::<bool, ErrModel>(keep && k),
                        }),
                    decreases st1.len() - si,
                {
                    proof {
                        assert(st1[si as int] == stack@[si as int]@);
                    }
                    let r0n = stack[si].as_str().unicode_len();
                    if r0n > 0 && stack[si].as_str().get_char(0) == ' ' {
                        return Err(FixtureError::RegionLeadingSpace { region: stack[si].clone() });
                    }
                    if !vec_contains_str(&mc.valid_flags, stack[si].as_str()) {
                        return Err(FixtureError::InvalidFlag { flag: stack[si].clone() });
                    }
                    let ghost sn0 = views_of(seen@);
                    seen.push(stack[si].clone());
                    proof {
                        assert(views_of(seen@) =~= sn0.push(st1[si as int]));
                        lemma_set_of_push(sn0, st1[si as int]);
                        assert(st1.take(si + 1) =~= st1.take(si as int).push(st1[si as int]));
                        lemma_set_of_push(st1.take(si as int), st1[si as int]);
                        assert(seen0.union(set_of(st1.take(si as int))).insert(st1[si as int])
                            =~= seen0.union(set_of(st1.take(si + 1))));
                    }
                    let act_has = vec_contains_str(&mc.activated_flags, stack[si].as_str());
                    keep = keep && act_has;
                    si = si + 1;
                }
                proof {
                    assert(st1.take(st1.len() as int) =~= st1);
                }
                if keep {
                    let ghost b0 = buf@;
                    buf.append(lines[li].as_str());
                    proof {
                        assert(buf@ == b0 + lvs[li as int]);
                    }
                }
                if is_inline {
                    let ghost st1b = views_of(stack@);
                    let _popped = stack.pop();
                    proof {
                        assert(views_of(stack@) =~= st1b.drop_last());
                    }
                }
            }
            li = li + 1;
        }
        let ghost seen_set: Set<Seq<char>> = set_of(views_of(seen@));
        let mut u: usize = 0;
        while u < mc.valid_flags.len()
            invariant
                0 <= u <= validv.len(),
                validv.len() == mc.valid_flags@.len(),
                views_of(mc.valid_flags@) == validv,
                set_of(views_of(seen@)) == seen_set,
                spec_unused_check(validv, seen_set, u as int) == spec_unused_check(
                    validv,
                    seen_set,
                    0,
                ),
            decreases validv.len() - u,
        {
            proof {
                assert(validv[u as int] == mc.valid_flags@[u as int]@);
            }
            if !vec_contains_str(&seen, mc.valid_flags[u].as_str()) {
                return Err(FixtureError::UnusedFlag { flag: mc.valid_flags[u].clone() });
            }
            u = u + 1;
        }
        Ok(buf)
    }
}

} // verus!
