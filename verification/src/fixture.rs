//! The annotated-fixture parser: an annotation line opens a file
//! descriptor and carries its settings; every following line is that
//! file's body text, until the next annotation line.

use vstd::prelude::*;
use crate::env_vars::EnvVars;
use crate::env_vars::env_entries;
use crate::error::ErrModel;
use crate::error::FixtureError;
use crate::minicore::MiniCore;
use crate::minicore::MiniCoreModel;
use crate::minicore::minicore_marker;
use crate::minicore::spec_minicore_parse;
use crate::text::first_line_len;
use crate::text::spec_concat;
use crate::text::spec_find_from;
use crate::text::lemma_first_line_len_bounds;
use crate::text::lemma_no_contains_subrange;
use crate::text::line_end;
use crate::text::contains_str;
use crate::text::spec_contains;
use crate::text::spec_lines;
use crate::text::spec_match_at;
use crate::text::spec_split;
use crate::text::spec_split_first;
use crate::text::spec_starts_with;
use crate::text::spec_tokens;
use crate::text::spec_trim;
use crate::text::spec_trim_indent;
use crate::text::split_first_str;
use crate::text::split_str;
use crate::text::starts_with;
use crate::text::str_eq;
use crate::text::tokens;
use crate::text::trim_indent;
use crate::text::trim_slice;
use crate::text::views_of;

verus! {

/// The annotation marker that opens a descriptor line.
pub open spec fn annot_marker() -> Seq<char> {
    "//-"@
}

/// The path used when a fixture has no annotation line at all.
pub open spec fn default_meta_line() -> Seq<char> {
    "//- /main.rs"@
}

/// Mathematical model of one file descriptor.
#[verifier::ext_equal]
pub struct FixtureModel {
    pub path: Seq<char>,
    pub text: Seq<char>,
    pub krate: Option<Seq<char>>,
    pub deps: Seq<Seq<char>>,
    pub cfg_atoms: Seq<Seq<char>>,
    pub cfg_key_values: Seq<(Seq<char>, Seq<char>)>,
    pub edition: Option<Seq<char>>,
    pub env: Map<Seq<char>, Seq<char>>,
    pub introduce_new_source_root: bool,
}

/// One file of the described workspace, with its settings.
pub struct Fixture {
    pub path: String,
    pub text: String,
    pub krate: Option<String>,
    pub deps: Vec<String>,
    pub cfg_atoms: Vec<String>,
    pub cfg_key_values: Vec<(String, String)>,
    pub edition: Option<String>,
    pub env: EnvVars,
    pub introduce_new_source_root: bool,
}

/// The views of a sequence of string pairs.
pub open spec fn pair_views(v: Seq<(String, String)>) -> Seq<(Seq<char>, Seq<char>)> {
    Seq::new(v.len(), |i: int| (v[i].0@, v[i].1@))
}

impl View for Fixture {
    type V = FixtureModel;

    open spec fn view(&self) -> FixtureModel {
        FixtureModel {
            path: self.path@,
            text: self.text@,
            krate: match self.krate {
                Some(k) => Some(k@),
                None => None,
            },
            deps: views_of(self.deps@),
            cfg_atoms: views_of(self.cfg_atoms@),
            cfg_key_values: pair_views(self.cfg_key_values@),
            edition: match self.edition {
                Some(e) => Some(e@),
                None => None,
            },
            env: env_entries(self.env),
            introduce_new_source_root: self.introduce_new_source_root,
        }
    }
}

/// A descriptor as an annotation line creates it: the named path, no
/// body text yet, and every setting at its default.
pub open spec fn empty_descriptor(path: Seq<char>) -> FixtureModel {
    FixtureModel {
        path: path,
        text: Seq::empty(),
        krate: None,
        deps: Seq::empty(),
        cfg_atoms: Seq::empty(),
        cfg_key_values: Seq::empty(),
        edition: None,
        env: Map::empty(),
        introduce_new_source_root: false,
    }
}

/// Classifies each `cfg` entry: with `=` a key-value pair split at the
/// first `=`, without one a bare atom; order is preserved.
pub open spec fn spec_cfg_fold(f: FixtureModel, entries: Seq<Seq<char>>) -> FixtureModel
    decreases entries.len(),
{
    if entries.len() == 0 {
        f
    } else {
        let e = entries[0];
        let f1 = match spec_split_first(e, "="@) {
            Some(kv) => FixtureModel { cfg_key_values: f.cfg_key_values.push(kv), ..f },
            None => FixtureModel { cfg_atoms: f.cfg_atoms.push(e), ..f },
        };
        spec_cfg_fold(f1, entries.drop_first())
    }
}

/// Inserts each `env` entry that has an `=`; one without is silently
/// skipped.
pub open spec fn spec_env_fold(f: FixtureModel, entries: Seq<Seq<char>>) -> FixtureModel
    decreases entries.len(),
{
    if entries.len() == 0 {
        f
    } else {
        let f1 = match spec_split_first(entries[0], "="@) {
            Some(kv) => FixtureModel { env: f.env.insert(kv.0, kv.1), ..f },
            None => f,
        };
        spec_env_fold(f1, entries.drop_first())
    }
}

/// The effect of one `key:value` settings token on a descriptor; an
/// unknown key or a token without a colon is fatal.
pub open spec fn spec_apply_component(f: FixtureModel, tok: Seq<char>, meta: Seq<char>) -> Result<
    FixtureModel,
    ErrModel,
> {
    match spec_split_first(tok, ":"@) {
        None => Err(ErrModel::BadToken { line: meta }),
        Some(kv) => {
            if kv.0 == "crate"@ {
                Ok(FixtureModel { krate: Some(kv.1), ..f })
            } else if kv.0 == "deps"@ {
                Ok(FixtureModel { deps: spec_split(kv.1, ","@), ..f })
            } else if kv.0 == "edition"@ {
                Ok(FixtureModel { edition: Some(kv.1), ..f })
            } else if kv.0 == "cfg"@ {
                Ok(spec_cfg_fold(f, spec_split(kv.1, ","@)))
            } else if kv.0 == "env"@ {
                Ok(spec_env_fold(f, spec_split(kv.1, ","@)))
            } else if kv.0 == "new_source_root"@ {
                Ok(FixtureModel { introduce_new_source_root: true, ..f })
            } else {
                Err(ErrModel::UnknownKey { token: tok })
            }
        },
    }
}

/// Applies the settings tokens of an annotation line in order.
pub open spec fn spec_component_fold(
    f: FixtureModel,
    toks: Seq<Seq<char>>,
    meta: Seq<char>,
) -> Result<FixtureModel, ErrModel>
    decreases toks.len(),
{
    if toks.len() == 0 {
        Ok(f)
    } else {
        match spec_apply_component(f, toks[0], meta) {
            Err(e) => Err(e),
            Ok(f1) => spec_component_fold(f1, toks.drop_first(), meta),
        }
    }
}

/// The descriptor an annotation line describes: the first token is the
/// path, which must begin with `/`; the rest are settings tokens.
pub open spec fn spec_parse_meta_line(line: Seq<char>) -> Result<FixtureModel, ErrModel> {
    let meta = spec_trim(line.skip(annot_marker().len() as int));
    let toks = spec_tokens(meta);
    if toks.len() == 0 {
        Err(ErrModel::BadPath { path: Seq::empty() })
    } else if toks[0].len() == 0 || toks[0][0] != '/' {
        Err(ErrModel::BadPath { path: toks[0] })
    } else {
        spec_component_fold(empty_descriptor(toks[0]), toks.drop_first(), meta)
    }
}

impl Fixture {
    /// Parses one annotation line into a descriptor with empty body.
    #[verifier::loop_isolation(false)]
    fn parse_meta_line(line: &str) -> (r: Result<Fixture, FixtureError>)
        requires
            spec_starts_with(line@, annot_marker()),
        ensures
            match r {
                Ok(f) => spec_parse_meta_line(line@) == Ok::<FixtureModel, ErrModel>(f@),
                Err(e) => spec_parse_meta_line(line@) == Err::<FixtureModel, ErrModel>(e@),
            },
    {
        let n = line.unicode_len();
        proof {
            reveal_strlit("//-");
            reveal_strlit(":");
            reveal_strlit(",");
            reveal_strlit("=");
            assert("//-"@.len() == 3);
            assert(":"@.len() == 1);
            assert(","@.len() == 1);
            assert("="@.len() == 1);
        }
        let meta_s = trim_slice(line.substring_char(3, n));
        proof {
            assert(line@.subrange(3, n as int) =~= line@.skip(3));
        }
        let ghost meta: Seq<char> = meta_s@;
        let toks = tokens(meta_s);
        let ghost tvs: Seq<Seq<char>> = views_of(toks@);
        if toks.len() == 0 {
            let p = String::new();
            return Err(FixtureError::BadPath { path: p });
        }
        let path = toks[0].clone();
        let pn = path.as_str().unicode_len();
        proof {
            assert(tvs[0] == toks@[0]@);
        }
        if pn == 0 || path.as_str().get_char(0) != '/' {
            return Err(FixtureError::BadPath { path });
        }
        let mut fx = Fixture {
            path,
            text: String::new(),
            krate: None,
            deps: Vec::new(),
            cfg_atoms: Vec::new(),
            cfg_key_values: Vec::new(),
            edition: None,
            env: EnvVars::new(),
            introduce_new_source_root: false,
        };
        proof {
            assert(fx@.text =~= Seq::<char>::empty());
            assert(fx@.deps =~= Seq::<Seq<char>>::empty());
            assert(fx@.cfg_atoms =~= Seq::<Seq<char>>::empty());
            assert(fx@.cfg_key_values =~= Seq::<(Seq<char>, Seq<char>)>::empty());
            assert(fx@ =~= empty_descriptor(tvs[0]));
            assert(tvs.skip(1) =~= tvs.drop_first());
        }
        let mut i: usize = 1;
        while i < toks.len()
            invariant
                1 <= i <= toks@.len(),
                tvs == views_of(toks@),
                tvs.len() == toks@.len(),
                meta == meta_s@,
                spec_component_fold(fx@, tvs.skip(i as int), meta) == spec_component_fold(
                    empty_descriptor(tvs[0]),
                    tvs.drop_first(),
                    meta,
                ),
            decreases toks@.len() - i,
        {
            proof {
                assert(tvs.skip(i as int)[0] == tvs[i as int]);
                assert(tvs[i as int] == toks@[i as int]@);
                assert(tvs.skip(i as int).drop_first() =~= tvs.skip(i + 1));
            }
            let ghost f0 = fx@;
            let tok = &toks[i];
            match split_first_str(tok.as_str(), ":") {
                None => {
                    return Err(FixtureError::BadToken { line: meta_s.to_owned() });
                },
                Some(kv) => {
                    let (key, value) = kv;
                    let ghost vv: Seq<char> = value@;
                    if str_eq(key.as_str(), "crate") {
                        fx.krate = Some(value);
                        proof {
                            assert(fx@ =~= (FixtureModel { krate: Some(vv), ..f0 }));
                        }
                    } else if str_eq(key.as_str(), "deps") {
                        fx.deps = split_str(value.as_str(), ",");
                        proof {
                            assert(fx@ =~= (FixtureModel { deps: spec_split(vv, ","@), ..f0 }));
                        }
                    } else if str_eq(key.as_str(), "edition") {
                        fx.edition = Some(value);
                        proof {
                            assert(fx@ =~= (FixtureModel { edition: Some(vv), ..f0 }));
                        }
                    } else if str_eq(key.as_str(), "cfg") {
                        let entries = split_str(value.as_str(), ",");
                        let ghost evs = views_of(entries@);
                        let mut j: usize = 0;
                        proof {
                            assert(evs.skip(0) =~= evs);
                        }
                        while j < entries.len()
                            invariant
                                0 <= j <= entries@.len(),
                                evs == views_of(entries@),
                                evs.len() == entries@.len(),
                                spec_cfg_fold(fx@, evs.skip(j as int)) == spec_cfg_fold(f0, evs),
                            decreases entries@.len() - j,
                        {
                            proof {
                                assert(evs.skip(j as int)[0] == evs[j as int]);
                                assert(evs[j as int] == entries@[j as int]@);
                                assert(evs.skip(j as int).drop_first() =~= evs.skip(j + 1));
                            }
                            let ghost g0 = fx@;
                            match split_first_str(entries[j].as_str(), "=") {
                                Some(p) => {
                                    let ghost pv: (Seq<char>, Seq<char>) = (p.0@, p.1@);
                                    fx.cfg_key_values.push(p);
                                    proof {
                                        assert(pair_views(fx.cfg_key_values@) =~= g0.cfg_key_values
                                            .push(pv));
                                        assert(fx@ =~= (FixtureModel {
                                            cfg_key_values: g0.cfg_key_values.push(pv),
                                            ..g0
                                        }));
                                    }
                                },
                                None => {
                                    let a = entries[j].clone();
                                    fx.cfg_atoms.push(a);
                                    proof {
                                        assert(views_of(fx.cfg_atoms@) =~= g0.cfg_atoms.push(
                                            evs[j as int],
                                        ));
                                        assert(fx@ =~= (FixtureModel {
                                            cfg_atoms: g0.cfg_atoms.push(evs[j as int]),
                                            ..g0
                                        }));
                                    }
                                },
                            }
                            j = j + 1;
                        }
                        proof {
                            assert(evs.skip(entries@.len() as int) =~= Seq::<Seq<char>>::empty());
                        }
                    } else if str_eq(key.as_str(), "env") {
                        let entries = split_str(value.as_str(), ",");
                        let ghost evs = views_of(entries@);
                        let mut j: usize = 0;
                        proof {
                            assert(evs.skip(0) =~= evs);
                        }
                        while j < entries.len()
                            invariant
                                0 <= j <= entries@.len(),
                                evs == views_of(entries@),
                                evs.len() == entries@.len(),
                                spec_env_fold(fx@, evs.skip(j as int)) == spec_env_fold(f0, evs),
                            decreases entries@.len() - j,
                        {
                            proof {
                                assert(evs.skip(j as int)[0] == evs[j as int]);
                                assert(evs[j as int] == entries@[j as int]@);
                                assert(evs.skip(j as int).drop_first() =~= evs.skip(j + 1));
                            }
                            let ghost g0 = fx@;
                            match split_first_str(entries[j].as_str(), "=") {
                                Some(p) => {
                                    let (k, v) = p;
                                    let ghost pv: (Seq<char>, Seq<char>) = (k@, v@);
                                    fx.env.insert(k, v);
                                    proof {
                                        assert(fx@ =~= (FixtureModel {
                                            env: g0.env.insert(pv.0, pv.1),
                                            ..g0
                                        }));
                                    }
                                },
                                None => {},
                            }
                            j = j + 1;
                        }
                        proof {
                            assert(evs.skip(entries@.len() as int) =~= Seq::<Seq<char>>::empty());
                        }
                    } else if str_eq(key.as_str(), "new_source_root") {
                        fx.introduce_new_source_root = true;
                        proof {
                            assert(fx@ =~= (FixtureModel { introduce_new_source_root: true, ..f0 }));
                        }
                    } else {
                        return Err(FixtureError::UnknownKey { token: tok.clone() });
                    }
                    proof {
                        assert(spec_apply_component(f0, tvs[i as int], meta) == Ok::<
                            FixtureModel,
                            ErrModel,
                        >(fx@));
                    }
                },
            }
            i = i + 1;
        }
        proof {
            assert(tvs.skip(toks@.len() as int) =~= Seq::<Seq<char>>::empty());
        }
        Ok(fx)
    }
}

/// An ASCII capital letter.
pub open spec fn is_upper(c: char) -> bool {
    65 <= c as u32 <= 90
}

/// A body line that looks like an annotation line that lost its
/// marker: a comment with a single colon and no capital letters.
pub open spec fn spec_suspicious(line: Seq<char>) -> bool {
    &&& spec_starts_with(line, "// "@)
    &&& spec_contains(line, ":"@)
    &&& !spec_contains(line, "::"@)
    &&& forall|j: int| 0 <= j < line.len() ==> !is_upper(line[j])
}

/// Appends `line` to the body text of the most recent descriptor, or
/// does nothing when there is none.
pub open spec fn append_text(acc: Seq<FixtureModel>, line: Seq<char>) -> Seq<FixtureModel> {
    if acc.len() == 0 {
        acc
    } else {
        acc.update(acc.len() - 1, FixtureModel { text: acc.last().text + line, ..acc.last() })
    }
}

/// Scans the lines in order: an annotation line opens a descriptor,
/// any other line is body text of the most recent one; a misaligned
/// marker or a suspicious body line is fatal.
pub open spec fn spec_line_fold(acc: Seq<FixtureModel>, ls: Seq<Seq<char>>, ix: int) -> Result<
    Seq<FixtureModel>,
    ErrModel,
>
    decreases ls.len(),
{
    if ls.len() == 0 {
        Ok(acc)
    } else {
        let line = ls[0];
        if spec_contains(line, annot_marker()) && !spec_starts_with(line, annot_marker()) {
            Err(ErrModel::IndentationMismatch { index: ix, line })
        } else if spec_starts_with(line, annot_marker()) {
            match spec_parse_meta_line(line) {
                Err(e) => Err(e),
                Ok(f) => spec_line_fold(acc.push(f), ls.drop_first(), ix + 1),
            }
        } else if spec_suspicious(line) {
            Err(ErrModel::SuspiciousLine { line })
        } else {
            spec_line_fold(append_text(acc, line), ls.drop_first(), ix + 1)
        }
    }
}

/// The descriptors of the fixture text after the flag declaration has
/// been removed; a text with no annotation marker gets one synthesized
/// line naming the default path.
pub open spec fn spec_scan(rest: Seq<char>) -> Result<Seq<FixtureModel>, ErrModel> {
    let ls = if spec_contains(rest, annot_marker()) {
        spec_lines(rest)
    } else {
        seq![default_meta_line()] + spec_lines(rest)
    };
    spec_line_fold(Seq::empty(), ls, 0)
}

/// The full parse: indentation is normalized, an optional leading flag
/// declaration is consumed, and the remaining lines are scanned into
/// descriptors.
pub open spec fn spec_parse(s: Seq<char>) -> Result<
    (Option<MiniCoreModel>, Seq<FixtureModel>),
    ErrModel,
> {
    let t = spec_trim_indent(s);
    if spec_starts_with(t, minicore_marker()) {
        let k = first_line_len(t) as int;
        match spec_minicore_parse(t.take(k)) {
            Err(e) => Err(e),
            Ok(m) => match spec_scan(t.skip(k)) {
                Err(e) => Err(e),
                Ok(fs) => Ok((Some(m), fs)),
            },
        }
    } else {
        match spec_scan(t) {
            Err(e) => Err(e),
            Ok(fs) => Ok((None, fs)),
        }
    }
}

/// The view of an optional flag state.
pub open spec fn mc_view(o: Option<MiniCore>) -> Option<MiniCoreModel> {
    match o {
        Some(m) => Some(m@),
        None => None,
    }
}

/// The views of a sequence of descriptors.
pub open spec fn fixtures_view(v: Seq<Fixture>) -> Seq<FixtureModel> {
    Seq::new(v.len(), |i: int| v[i]@)
}

/// Whether `s` holds no ASCII capital letter.
fn no_upper(s: &str) -> (r: bool)
    ensures
        r <==> (forall|j: int| 0 <= j < s@.len() ==> !is_upper(s@[j])),
{
    let n = s.unicode_len();
    let mut i: usize = 0;
    while i < n
        invariant
            0 <= i <= n,
            n == s@.len(),
            forall|j: int| 0 <= j < i ==> !is_upper(s@[j]),
        decreases n - i,
    {
        let c = s.get_char(i);
        let u = c as u32;
        if u >= 65 && u <= 90 {
            proof {
                assert(is_upper(s@[i as int]));
            }
            return false;
        }
        i = i + 1;
    }
    true
}

/// A pattern at the start of `s` occurs in `s`.
proof fn lemma_starts_with_contains(s: Seq<char>, pat: Seq<char>)
    requires
        spec_starts_with(s, pat),
    ensures
        spec_contains(s, pat),
{
    crate::text::lemma_find_from_iff(s, pat, 0);
    assert(spec_match_at(s, pat, 0));
}

/// A line whose first `m` characters hold no newline is at least `m`
/// characters long.
proof fn lemma_first_line_at_least(s: Seq<char>, m: int)
    requires
        0 <= m <= s.len(),
        forall|j: int| 0 <= j < m ==> s[j] != '\n',
    ensures
        first_line_len(s) >= m,
    decreases m,
{
    if m > 0 {
        let t = s.drop_first();
        assert(forall|j: int| 0 <= j < m - 1 ==> t[j] == s[j + 1] && #[trigger] t[j] != '\n');
        lemma_first_line_at_least(t, m - 1);
    }
}

impl Fixture {
    /// Parses an annotated fixture text into the optional flag
    /// declaration and the ordered file descriptors.
    #[verifier::loop_isolation(false)]
    pub fn parse(ra_fixture: &str) -> (r: Result<(Option<MiniCore>, Vec<Fixture>), FixtureError>)
        ensures
            match r {
                Ok(p) => spec_parse(ra_fixture@) == Ok::<
                    (Option<MiniCoreModel>, Seq<FixtureModel>),
                    ErrModel,
                >((mc_view(p.0), fixtures_view(p.1@))),
                Err(e) => spec_parse(ra_fixture@) == Err::<
                    (Option<MiniCoreModel>, Seq<FixtureModel>),
                    ErrModel,
                >(e@),
            },
    {
        proof {
            reveal_strlit("//-");
            reveal_strlit("//- minicore:");
            reveal_strlit("//- /main.rs");
        }
        let t_string = trim_indent(ra_fixture);
        let t = t_string.as_str();
        let ghost tv: Seq<char> = t@;
        let n = t.unicode_len();
        let mut mini: Option<MiniCore> = None;
        let mut start: usize = 0;
        if starts_with(t, "//- minicore:") {
            let k = line_end(t, 0);
            proof {
                assert(tv.skip(0) =~= tv);
                assert forall|j: int| 0 <= j < 13 implies tv[j] != '\n' by {
                    assert(tv.subrange(0, 13)[j] == tv[j]);
                    assert(tv.subrange(0, 13)[j] == minicore_marker()[j]);
                }
                lemma_first_line_at_least(tv, 13);
            }
            let first = t.substring_char(0, k);
            proof {
                assert(first@ =~= tv.take(k as int));
                assert(first@.subrange(0, 13) =~= tv.subrange(0, 13));
            }
            match MiniCore::parse(first) {
                Err(e) => {
                    return Err(e);
                },
                Ok(m) => {
                    mini = Some(m);
                    start = k;
                },
            }
        }
        let rest = t.substring_char(start, n);
        proof {
            assert(rest@ =~= tv.skip(start as int));
            if start == 0 {
                assert(tv.skip(0) =~= tv);
            }
        }
        let has_marker = contains_str(rest, "//-");
        let ghost ls: Seq<Seq<char>> = if has_marker {
            spec_lines(rest@)
        } else {
            seq![default_meta_line()] + spec_lines(rest@)
        };
        let mut res: Vec<Fixture> = Vec::new();
        let mut ix: usize = 0;
        let ghost mut gix: int = 0;
        proof {
            assert(fixtures_view(res@) =~= Seq::<FixtureModel>::empty());
        }
        if !has_marker {
            proof {
                assert(default_meta_line().subrange(0, 3) =~= annot_marker());
                assert(spec_starts_with(default_meta_line(), annot_marker()));
                lemma_starts_with_contains(default_meta_line(), annot_marker());
                assert(ls[0] == default_meta_line());
                assert(ls.drop_first() =~= spec_lines(rest@));
            }
            match Fixture::parse_meta_line("//- /main.rs") {
                Err(e) => {
                    return Err(e);
                },
                Ok(f) => {
                    let ghost fv = f@;
                    res.push(f);
                    proof {
                        gix = 1;
                        assert(fixtures_view(res@) =~= Seq::<FixtureModel>::empty().push(fv));
                    }
                },
            }
        }
        let rn = rest.unicode_len();
        let mut pos: usize = 0;
        proof {
            assert(rest@.skip(0) =~= rest@);
        }
        while pos < rn
            invariant
                0 <= pos <= rn,
                spec_line_fold(fixtures_view(res@), spec_lines(rest@.skip(pos as int)), gix)
                    == spec_line_fold(Seq::empty(), ls, 0),
                0 <= gix,
                has_marker ==> gix <= pos,
                !has_marker ==> gix <= pos + 1,
                has_marker ==> ix as int == gix,
            decreases rn - pos,
        {
            let e = line_end(rest, pos);
            proof {
                lemma_first_line_len_bounds(rest@.skip(pos as int));
                assert(rest@.skip(pos as int).take(e - pos) =~= rest@.subrange(
                    pos as int,
                    e as int,
                ));
                assert(rest@.skip(pos as int).skip(e - pos) =~= rest@.skip(e as int));
            }
            let ghost lv: Seq<char> = rest@.subrange(pos as int, e as int);
            let ghost rest_ls: Seq<Seq<char>> = spec_lines(rest@.skip(e as int));
            proof {
                assert(spec_lines(rest@.skip(pos as int)) == seq![lv] + rest_ls);
                assert((seq![lv] + rest_ls)[0] == lv);
                assert((seq![lv] + rest_ls).drop_first() =~= rest_ls);
            }
            let line = rest.substring_char(pos, e);
            let has_m = contains_str(line, "//-");
            if has_m && !starts_with(line, "//-") {
                proof {
                    if !has_marker {
                        lemma_no_contains_subrange(rest@, annot_marker(), pos as int, e as int);
                        assert(false);
                    }
                }
                return Err(FixtureError::IndentationMismatch { index: ix, line: line.to_owned() });
            }
            if starts_with(line, "//-") {
                match Fixture::parse_meta_line(line) {
                    Err(e2) => {
                        return Err(e2);
                    },
                    Ok(f) => {
                        let ghost fv = f@;
                        let ghost r0 = fixtures_view(res@);
                        res.push(f);
                        proof {
                            assert(fixtures_view(res@) =~= r0.push(fv));
                        }
                    },
                }
            } else {
                let susp = starts_with(line, "// ") && contains_str(line, ":") && !contains_str(
                    line,
                    "::",
                ) && no_upper(line);
                if susp {
                    return Err(FixtureError::SuspiciousLine { line: line.to_owned() });
                }
                proof {
                    assert(!spec_suspicious(lv));
                }
                if res.len() > 0 {
                    let ghost r0 = fixtures_view(res@);
                    let mut last = res.pop().unwrap();
                    let ghost l0 = last@;
                    last.text.append(line);
                    proof {
                        assert(last@ =~= (FixtureModel { text: l0.text + lv, ..l0 }));
                    }
                    res.push(last);
                    proof {
                        assert(fixtures_view(res@) =~= append_text(r0, lv));
                    }
                } else {
                    proof {
                        assert(append_text(fixtures_view(res@), lv) =~= fixtures_view(res@));
                    }
                }
            }
            pos = e;
            proof {
                gix = gix + 1;
            }
            if has_marker {
                ix = ix + 1;
            }
        }
        proof {
            assert(rest@.skip(rn as int) =~= Seq::<char>::empty());
        }
        Ok((mini, res))
    }
}

// ---------------------------------------------------------------------
// Laws
// ---------------------------------------------------------------------

/// Lines cut from a text without the pattern do not hold the pattern.
proof fn lemma_lines_no_contains(t: Seq<char>, pat: Seq<char>)
    requires
        !spec_contains(t, pat),
    ensures
        forall|i: int|
            0 <= i < spec_lines(t).len() ==> !spec_contains(#[trigger] spec_lines(t)[i], pat),
    decreases t.len(),
{
    if t.len() > 0 {
        let n = first_line_len(t) as int;
        lemma_first_line_len_bounds(t);
        lemma_no_contains_subrange(t, pat, 0, n);
        assert(t.take(n) =~= t.subrange(0, n));
        assert(t.skip(n) =~= t.subrange(n, t.len() as int));
        lemma_no_contains_subrange(t, pat, n, t.len() as int);
        lemma_lines_no_contains(t.skip(n), pat);
        assert forall|i: int| 0 <= i < spec_lines(t).len() implies !spec_contains(
            #[trigger] spec_lines(t)[i],
            pat,
        ) by {
            if i > 0 {
                assert(spec_lines(t)[i] == spec_lines(t.skip(n))[i - 1]);
            }
        }
    }
}

/// Scanning marker-free lines only appends them, in order, to the body
/// of the last descriptor.
proof fn lemma_fold_appends_all(acc: Seq<FixtureModel>, ls: Seq<Seq<char>>, ix: int)
    requires
        acc.len() > 0,
        spec_line_fold(acc, ls, ix) is Ok,
        forall|i: int| 0 <= i < ls.len() ==> !spec_contains(#[trigger] ls[i], annot_marker()),
    ensures
        spec_line_fold(acc, ls, ix) == Ok::<Seq<FixtureModel>, ErrModel>(
            acc.update(
                acc.len() - 1,
                FixtureModel { text: acc.last().text + spec_concat(ls), ..acc.last() },
            ),
        ),
    decreases ls.len(),
{
    if ls.len() == 0 {
        assert(acc.last().text + spec_concat(ls) =~= acc.last().text);
        assert(acc.update(acc.len() - 1, FixtureModel { text: acc.last().text, ..acc.last() })
            =~= acc);
    } else {
        let line = ls[0];
        assert(!spec_contains(line, annot_marker()));
        assert(!spec_starts_with(line, annot_marker())) by {
            if spec_starts_with(line, annot_marker()) {
                lemma_starts_with_contains(line, annot_marker());
            }
        }
        let acc1 = append_text(acc, line);
        assert forall|i: int| 0 <= i < ls.drop_first().len() implies !spec_contains(
            #[trigger] ls.drop_first()[i],
            annot_marker(),
        ) by {
            assert(ls.drop_first()[i] == ls[i + 1]);
        }
        lemma_fold_appends_all(acc1, ls.drop_first(), ix + 1);
        assert(acc1.len() == acc.len());
        assert(acc1.last().text == acc.last().text + line);
        assert(acc1.update(
            acc1.len() - 1,
            FixtureModel { text: acc1.last().text + spec_concat(ls.drop_first()), ..acc1.last() },
        ) =~= acc.update(
            acc.len() - 1,
            FixtureModel { text: acc.last().text + spec_concat(ls), ..acc.last() },
        )) by {
            assert((acc.last().text + line) + spec_concat(ls.drop_first()) =~= acc.last().text + (
            line + spec_concat(ls.drop_first())));
            assert(spec_concat(ls) == line + spec_concat(ls.drop_first()));
        }
    }
}

/// The descriptor the synthesized default annotation line yields.
proof fn lemma_default_meta_line_parses()
    ensures
        spec_parse_meta_line(default_meta_line()) == Ok::<FixtureModel, ErrModel>(
            empty_descriptor("/main.rs"@),
        ),
{
    reveal_strlit("//- /main.rs");
    reveal_strlit("//-");
    reveal_strlit("/main.rs");
    let line = default_meta_line();
    let m = line.skip(3);
    let p = "/main.rs"@;
    assert(spec_trim(m) == p) by {
        crate::text::lemma_trim_via_bounds(m, 1, m.len() as int);
        assert(m.subrange(1, m.len() as int) =~= p);
    }
    let toks = spec_tokens(p);
    assert(toks == seq![p]) by {
        crate::text::lemma_ws_prefix_char(p, 0);
        assert(crate::text::spec_trim_start(p) =~= p);
        crate::text::lemma_nonws_prefix_char(p, p.len() as int);
        assert(p.take(p.len() as int) =~= p);
        let rest = p.skip(p.len() as int);
        assert(rest =~= Seq::<char>::empty());
        crate::text::lemma_ws_prefix_char(rest, 0);
        assert(crate::text::spec_trim_start(rest) =~= rest);
        assert(spec_tokens(rest) =~= Seq::<Seq<char>>::empty());
        assert(spec_tokens(p) =~= seq![p] + Seq::<Seq<char>>::empty());
        assert(seq![p] + Seq::<Seq<char>>::empty() =~= seq![p]);
    }
    assert(toks[0] == p);
    assert(toks[0][0] == '/');
    assert(toks.drop_first() =~= Seq::<Seq<char>>::empty());
}

/// A well-formed fixture without any annotation marker parses to
/// exactly one descriptor, whose path is the implicit default and
/// whose body text is the whole indentation-normalized input.
pub proof fn lemma_no_marker_single_descriptor(s: Seq<char>)
    requires
        !spec_contains(spec_trim_indent(s), annot_marker()),
        spec_parse(s) is Ok,
    ensures
        spec_parse(s) matches Ok(p) && p.0 is None && p.1.len() == 1 && p.1[0].path == "/main.rs"@
            && p.1[0].text == spec_trim_indent(s),
{
    reveal_strlit("//-");
    reveal_strlit("//- minicore:");
    reveal_strlit("//- /main.rs");
    reveal_strlit("/main.rs");
    let t = spec_trim_indent(s);
    assert(!spec_starts_with(t, minicore_marker())) by {
        if spec_starts_with(t, minicore_marker()) {
            assert(t.subrange(0, 3) =~= minicore_marker().subrange(0, 3)) by {
                assert forall|j: int| 0 <= j < 3 implies t.subrange(0, 3)[j]
                    == minicore_marker().subrange(0, 3)[j] by {
                    assert(t.subrange(0, 13)[j] == t[j]);
                }
            }
            assert(minicore_marker().subrange(0, 3) =~= annot_marker());
            assert(spec_match_at(t, annot_marker(), 0));
            lemma_starts_with_contains(t, annot_marker());
        }
    }
    let ls = seq![default_meta_line()] + spec_lines(t);
    assert(ls[0] == default_meta_line());
    assert(ls.drop_first() =~= spec_lines(t));
    assert(spec_starts_with(default_meta_line(), annot_marker())) by {
        assert(default_meta_line().subrange(0, 3) =~= annot_marker());
    }
    lemma_starts_with_contains(default_meta_line(), annot_marker());
    lemma_default_meta_line_parses();
    let d = empty_descriptor("/main.rs"@);
    let acc = Seq::<FixtureModel>::empty().push(d);
    assert(spec_line_fold(Seq::empty(), ls, 0) == spec_line_fold(acc, spec_lines(t), 1));
    lemma_lines_no_contains(t, annot_marker());
    lemma_fold_appends_all(acc, spec_lines(t), 1);
    crate::text::lemma_concat_lines(t);
    let res = acc.update(0, FixtureModel { text: d.text + t, ..d });
    assert(res[0].text =~= t);
    assert(res.len() == 1);
}

/// A `crate:` settings token sets the compilation-unit name to exactly
/// the text after the colon and changes nothing else.
pub proof fn lemma_crate_component(f: FixtureModel, x: Seq<char>, meta: Seq<char>)
    ensures
        spec_apply_component(f, "crate:"@ + x, meta) == Ok::<FixtureModel, ErrModel>(
            FixtureModel { krate: Some(x), ..f },
        ),
{
    reveal_strlit("crate:");
    reveal_strlit("crate");
    reveal_strlit(":");
    let tok = "crate:"@ + x;
    assert(spec_find_from(tok, ":"@, 0) == Some(5int)) by {
        reveal_with_fuel(spec_find_from, 8);
        assert forall|i: int| 0 <= i < 5 implies !spec_match_at(tok, ":"@, i) by {
            if spec_match_at(tok, ":"@, i) {
                assert(tok.subrange(i, i + 1)[0] == tok[i]);
            }
        }
        assert(tok.subrange(5, 6) =~= ":"@);
    }
    assert(tok.take(5) =~= "crate"@);
    assert(tok.skip(6) =~= x);
}

/// A `deps:` settings token replaces the dependency list with the text
/// after the colon split on commas, in order, and changes nothing
/// else.
pub proof fn lemma_deps_component(f: FixtureModel, v: Seq<char>, meta: Seq<char>)
    ensures
        spec_apply_component(f, "deps:"@ + v, meta) == Ok::<FixtureModel, ErrModel>(
            FixtureModel { deps: spec_split(v, ","@), ..f },
        ),
{
    reveal_strlit("deps:");
    reveal_strlit("deps");
    reveal_strlit("crate");
    reveal_strlit(":");
    let tok = "deps:"@ + v;
    assert(spec_find_from(tok, ":"@, 0) == Some(4int)) by {
        reveal_with_fuel(spec_find_from, 7);
        assert forall|i: int| 0 <= i < 4 implies !spec_match_at(tok, ":"@, i) by {
            if spec_match_at(tok, ":"@, i) {
                assert(tok.subrange(i, i + 1)[0] == tok[i]);
            }
        }
        assert(tok.subrange(4, 5) =~= ":"@);
    }
    assert(tok.take(4) =~= "deps"@);
    assert(tok.skip(5) =~= v);
    assert("deps"@ != "crate"@) by {
        assert("deps"@.len() != "crate"@.len());
    }
}

/// The entries of a `cfg:` value that are bare atoms, in order.
pub open spec fn cfg_atoms_of(entries: Seq<Seq<char>>) -> Seq<Seq<char>>
    decreases entries.len(),
{
    if entries.len() == 0 {
        Seq::empty()
    } else {
        let rest = cfg_atoms_of(entries.drop_first());
        if spec_split_first(entries[0], "="@) is None {
            seq![entries[0]] + rest
        } else {
            rest
        }
    }
}

/// The entries of a `cfg:` value that carry `=`, split at the first
/// one, in order.
pub open spec fn cfg_kvs_of(entries: Seq<Seq<char>>) -> Seq<(Seq<char>, Seq<char>)>
    decreases entries.len(),
{
    if entries.len() == 0 {
        Seq::empty()
    } else {
        let rest = cfg_kvs_of(entries.drop_first());
        match spec_split_first(entries[0], "="@) {
            Some(kv) => seq![kv] + rest,
            None => rest,
        }
    }
}

/// The cfg fold classifies every comma entry, whatever the
/// interleaving: the atoms are exactly the entries without `=`, the
/// key-value pairs exactly those with one, each kept in source order,
/// and no other field changes.
pub proof fn lemma_cfg_fold_classifies(f: FixtureModel, entries: Seq<Seq<char>>)
    ensures
        spec_cfg_fold(f, entries) == (FixtureModel {
            cfg_atoms: f.cfg_atoms + cfg_atoms_of(entries),
            cfg_key_values: f.cfg_key_values + cfg_kvs_of(entries),
            ..f
        }),
    decreases entries.len(),
{
    if entries.len() == 0 {
        assert(f.cfg_atoms + cfg_atoms_of(entries) =~= f.cfg_atoms);
        assert(f.cfg_key_values + cfg_kvs_of(entries) =~= f.cfg_key_values);
        assert(spec_cfg_fold(f, entries) =~= (FixtureModel {
            cfg_atoms: f.cfg_atoms + cfg_atoms_of(entries),
            cfg_key_values: f.cfg_key_values + cfg_kvs_of(entries),
            ..f
        }));
    } else {
        let e = entries[0];
        let rest = entries.drop_first();
        match spec_split_first(e, "="@) {
            Some(kv) => {
                let f1 = FixtureModel { cfg_key_values: f.cfg_key_values.push(kv), ..f };
                lemma_cfg_fold_classifies(f1, rest);
                assert(f1.cfg_key_values + cfg_kvs_of(rest) =~= f.cfg_key_values + (seq![kv]
                    + cfg_kvs_of(rest)));
                assert(spec_cfg_fold(f, entries) =~= (FixtureModel {
                    cfg_atoms: f.cfg_atoms + cfg_atoms_of(entries),
                    cfg_key_values: f.cfg_key_values + cfg_kvs_of(entries),
                    ..f
                }));
            },
            None => {
                let f1 = FixtureModel { cfg_atoms: f.cfg_atoms.push(e), ..f };
                lemma_cfg_fold_classifies(f1, rest);
                assert(f1.cfg_atoms + cfg_atoms_of(rest) =~= f.cfg_atoms + (seq![e] + cfg_atoms_of(
                rest)));
                assert(spec_cfg_fold(f, entries) =~= (FixtureModel {
                    cfg_atoms: f.cfg_atoms + cfg_atoms_of(entries),
                    cfg_key_values: f.cfg_key_values + cfg_kvs_of(entries),
                    ..f
                }));
            },
        }
    }
}

} // verus!

