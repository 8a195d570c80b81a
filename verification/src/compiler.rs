//! The ASN.1 compiler: module registry, import validation and definition
//! resolution.
//!
//! A compilation unit owns a collection of modules, each a named list of
//! parsed definitions plus its imported-name to source-module associations,
//! and a global table of resolved definitions. Resolution walks the modules
//! in one pass, in registration order, and each module's definitions in
//! declaration order; every successfully resolved definition lands in the
//! global table and the module's copy is marked resolved. A name that a
//! definition needs must be resolvable when that definition is reached.

use vstd::prelude::*;
use crate::parse::Asn1TypeInteger;
use crate::parse::NamedValue;
use crate::parse::NamedValueModel;
use crate::parse::nv_list_model;
use crate::parse::integer_model;

verus! {

/// One CHOICE variant as written: its name, its mandatory integer key (a
/// missing key is a resolution failure), its extension marker, and the name
/// of its payload type.
#[derive(Debug, PartialEq, Eq)]
pub struct ChoiceVariant {
    pub name: Vec<char>,
    pub key: Option<i64>,
    pub extended: bool,
    pub payload: Vec<char>,
}

/// The as-written shape of one definition: the construct and its declared
/// constraint (lower bound, upper bound, extensibility), not yet checked.
#[derive(Debug, PartialEq, Eq)]
pub enum ParsedDef {
    Integer { ty: Asn1TypeInteger, constraint: Option<(i64, i64, bool)> },
    Choice { variants: Vec<ChoiceVariant>, constraint: Option<(i64, i64, bool)> },
    BitString { constraint: Option<(u64, u64, bool)> },
}

/// The fully concrete form of a definition: bounds, extensibility, and for
/// CHOICE the key-to-payload mapping in declaration order. It holds no
/// unresolved references.
#[derive(Debug, PartialEq, Eq)]
pub enum ResolvedDef {
    Integer { lb: i64, ub: i64, ext: bool, named_values: Vec<(Vec<char>, i64)> },
    BitString { lb: u64, ub: u64, ext: bool },
    Choice { lb: i64, ub: i64, ext: bool, variants: Vec<(i64, Vec<char>)> },
}

/// One definition inside a module: flipped from parsed to resolved as the
/// resolver processes it.
#[derive(Debug, PartialEq, Eq)]
pub struct Asn1Definition {
    pub name: Vec<char>,
    pub parsed: ParsedDef,
    pub resolved: bool,
}

/// One ASN.1 module: its unique name, its definitions in declaration
/// order, and its imported-name to source-module associations.
#[derive(Debug, PartialEq, Eq)]
pub struct Asn1Module {
    pub name: Vec<char>,
    pub definitions: Vec<Asn1Definition>,
    pub imports: Vec<(Vec<char>, Vec<char>)>,
}

/// One reason a definition would not resolve.
#[derive(Debug, PartialEq, Eq)]
pub enum ResolveFault {
    /// A CHOICE variant, named here, declares no key.
    MissingKey(Vec<char>),
    /// A named value refers to a name with no literal entry in its list.
    UnresolvedReference(Vec<char>),
    /// The construct needs concrete bounds and declares none.
    MissingBounds,
}

/// A resolution failure: the ordered, independent faults of one
/// definition, combined so every sibling problem surfaces in one pass.
#[derive(Debug, PartialEq, Eq)]
pub struct ResolveError {
    pub faults: Vec<ResolveFault>,
}

/// An import whose claimed source module is not registered: the missing
/// module's name and the imported definition's name.
#[derive(Debug, PartialEq, Eq)]
pub struct ImportError {
    pub module: Vec<char>,
    pub import: Vec<char>,
}

/// The mathematical shape of a resolution fault.
pub enum FaultModel {
    MissingKey(Seq<char>),
    UnresolvedReference(Seq<char>),
    MissingBounds,
}

/// The mathematical shape of a [`ResolveFault`].
pub open spec fn fault_model(f: ResolveFault) -> FaultModel {
    match f {
        ResolveFault::MissingKey(n) => FaultModel::MissingKey(n@),
        ResolveFault::UnresolvedReference(n) => FaultModel::UnresolvedReference(n@),
        ResolveFault::MissingBounds => FaultModel::MissingBounds,
    }
}

/// The mathematical shape of a fault list.
pub open spec fn faults_model(fs: Seq<ResolveFault>) -> Seq<FaultModel> {
    fs.map_values(|f: ResolveFault| fault_model(f))
}

/// The mathematical shape of a parsed definition.
pub enum ParsedModel {
    Integer {
        named_values: Option<Seq<(Seq<char>, NamedValueModel)>>,
        constraint: Option<(int, int, bool)>,
    },
    Choice {
        variants: Seq<(Seq<char>, Option<int>, bool, Seq<char>)>,
        constraint: Option<(int, int, bool)>,
    },
    BitString { constraint: Option<(nat, nat, bool)> },
}

/// The mathematical shape of a declared signed constraint.
pub open spec fn constraint_model(c: Option<(i64, i64, bool)>) -> Option<(int, int, bool)> {
    match c {
        None => None,
        Some((lb, ub, ext)) => Some((lb as int, ub as int, ext)),
    }
}

/// The mathematical shape of a declared size constraint.
pub open spec fn size_constraint_model(c: Option<(u64, u64, bool)>) -> Option<(nat, nat, bool)> {
    match c {
        None => None,
        Some((lb, ub, ext)) => Some((lb as nat, ub as nat, ext)),
    }
}

/// The mathematical shape of a CHOICE variant list.
pub open spec fn variants_model(vs: Seq<ChoiceVariant>) -> Seq<
    (Seq<char>, Option<int>, bool, Seq<char>),
> {
    vs.map_values(
        |v: ChoiceVariant|
            (
                v.name@,
                match v.key {
                    None => None::<int>,
                    Some(k) => Some(k as int),
                },
                v.extended,
                v.payload@,
            ),
    )
}

/// The mathematical shape of a [`ParsedDef`].
pub open spec fn parsed_model(p: ParsedDef) -> ParsedModel {
    match p {
        ParsedDef::Integer { ty, constraint } => ParsedModel::Integer {
            named_values: integer_model(ty),
            constraint: constraint_model(constraint),
        },
        ParsedDef::Choice { variants, constraint } => ParsedModel::Choice {
            variants: variants_model(variants@),
            constraint: constraint_model(constraint),
        },
        ParsedDef::BitString { constraint } => ParsedModel::BitString {
            constraint: size_constraint_model(constraint),
        },
    }
}

/// The mathematical shape of a resolved definition.
pub enum ResolvedModel {
    Integer { lb: int, ub: int, ext: bool, named_values: Seq<(Seq<char>, int)> },
    BitString { lb: nat, ub: nat, ext: bool },
    Choice { lb: int, ub: int, ext: bool, variants: Seq<(int, Seq<char>)> },
}

/// The mathematical shape of a [`ResolvedDef`].
pub open spec fn resolved_model(d: ResolvedDef) -> ResolvedModel {
    match d {
        ResolvedDef::Integer { lb, ub, ext, named_values } => ResolvedModel::Integer {
            lb: lb as int,
            ub: ub as int,
            ext,
            named_values: named_values@.map_values(|p: (Vec<char>, i64)| (p.0@, p.1 as int)),
        },
        ResolvedDef::BitString { lb, ub, ext } => ResolvedModel::BitString {
            lb: lb as nat,
            ub: ub as nat,
            ext,
        },
        ResolvedDef::Choice { lb, ub, ext, variants } => ResolvedModel::Choice {
            lb: lb as int,
            ub: ub as int,
            ext,
            variants: variants@.map_values(|p: (i64, Vec<char>)| (p.0 as int, p.1@)),
        },
    }
}

/// The first literal entry named `name` at or past position `j` of a
/// named-value list, if any. Reference entries never satisfy a lookup.
pub open spec fn spec_lookup_literal(
    nvs: Seq<(Seq<char>, NamedValueModel)>,
    name: Seq<char>,
    j: int,
) -> Option<int>
    decreases nvs.len() - j,
{
    if j < 0 || j >= nvs.len() {
        None
    } else {
        match nvs[j].1 {
            NamedValueModel::Literal(v) => if nvs[j].0 == name {
                Some(v)
            } else {
                spec_lookup_literal(nvs, name, j + 1)
            },
            NamedValueModel::Reference(_) => spec_lookup_literal(nvs, name, j + 1),
        }
    }
}

/// What resolving the named values at or past position `i` yields: each
/// literal taken as-is, each reference substituted by the first literal
/// entry of the same list carrying that name. The faults of every
/// unresolvable reference are combined, in order.
pub open spec fn spec_resolve_nvs(nvs: Seq<(Seq<char>, NamedValueModel)>, i: int) -> Result<
    Seq<(Seq<char>, int)>,
    Seq<FaultModel>,
>
    decreases nvs.len() - i,
{
    if i < 0 || i >= nvs.len() {
        Ok(Seq::empty())
    } else {
        let head: Result<int, Seq<char>> = match nvs[i].1 {
            NamedValueModel::Literal(v) => Ok(v),
            NamedValueModel::Reference(rn) => match spec_lookup_literal(nvs, rn, 0) {
                Some(v) => Ok(v),
                None => Err(rn),
            },
        };
        let rest = spec_resolve_nvs(nvs, i + 1);
        match (head, rest) {
            (Ok(v), Ok(s)) => Ok(seq![(nvs[i].0, v)] + s),
            (Ok(_), Err(fs)) => Err(fs),
            (Err(rn), Ok(_)) => Err(seq![FaultModel::UnresolvedReference(rn)]),
            (Err(rn), Err(fs)) => Err(seq![FaultModel::UnresolvedReference(rn)] + fs),
        }
    }
}

/// What resolving the CHOICE variants at or past position `i` yields: each
/// variant's key and payload type, in declaration order. The faults of
/// every keyless variant are combined, in order.
pub open spec fn spec_resolve_variants(
    vs: Seq<(Seq<char>, Option<int>, bool, Seq<char>)>,
    i: int,
) -> Result<Seq<(int, Seq<char>)>, Seq<FaultModel>>
    decreases vs.len() - i,
{
    if i < 0 || i >= vs.len() {
        Ok(Seq::empty())
    } else {
        let head: Result<(int, Seq<char>), Seq<char>> = match vs[i].1 {
            Some(k) => Ok((k, vs[i].3)),
            None => Err(vs[i].0),
        };
        let rest = spec_resolve_variants(vs, i + 1);
        match (head, rest) {
            (Ok(p), Ok(s)) => Ok(seq![p] + s),
            (Ok(_), Err(fs)) => Err(fs),
            (Err(n), Ok(_)) => Err(seq![FaultModel::MissingKey(n)]),
            (Err(n), Err(fs)) => Err(seq![FaultModel::MissingKey(n)] + fs),
        }
    }
}

/// What resolving one parsed definition yields. Resolution needs no
/// environment for these constructs: INTEGER references are looked up in
/// the same list, CHOICE payloads are concrete type identities, and bounds
/// are carried through from the declaration. Constructs that the codec
/// needs bounds for fail without them.
pub open spec fn spec_resolve(pm: ParsedModel) -> Result<ResolvedModel, Seq<FaultModel>> {
    match pm {
        ParsedModel::Integer { named_values, constraint } => {
            let nvres = match named_values {
                None => Ok(Seq::<(Seq<char>, int)>::empty()),
                Some(list) => spec_resolve_nvs(list, 0),
            };
            match (constraint, nvres) {
                (None, Ok(_)) => Err(seq![FaultModel::MissingBounds]),
                (None, Err(fs)) => Err(fs + seq![FaultModel::MissingBounds]),
                (Some((lb, ub, ext)), Ok(s)) => Ok(
                    ResolvedModel::Integer { lb, ub, ext, named_values: s },
                ),
                (Some(_), Err(fs)) => Err(fs),
            }
        },
        ParsedModel::Choice { variants, constraint } => {
            let vres = spec_resolve_variants(variants, 0);
            match (constraint, vres) {
                (None, Ok(_)) => Err(seq![FaultModel::MissingBounds]),
                (None, Err(fs)) => Err(fs + seq![FaultModel::MissingBounds]),
                (Some((lb, ub, ext)), Ok(s)) => Ok(
                    ResolvedModel::Choice { lb, ub, ext, variants: s },
                ),
                (Some(_), Err(fs)) => Err(fs),
            }
        },
        ParsedModel::BitString { constraint } => {
            match constraint {
                None => Err(seq![FaultModel::MissingBounds]),
                Some((lb, ub, ext)) => Ok(ResolvedModel::BitString { lb, ub, ext }),
            }
        },
    }
}

/// The mathematical shape of a module's definitions: name and parsed
/// shape, in declaration order.
pub open spec fn defs_model(defs: Seq<Asn1Definition>) -> Seq<(Seq<char>, ParsedModel)> {
    defs.map_values(|d: Asn1Definition| (d.name@, parsed_model(d.parsed)))
}

/// The definitions of every module, in registration order.
pub open spec fn modules_defs_model(mods: Seq<Asn1Module>) -> Seq<Seq<(Seq<char>, ParsedModel)>> {
    mods.map_values(|m: Asn1Module| defs_model(m.definitions@))
}

/// The mathematical shape of the global resolved-definitions table.
pub open spec fn table_model(t: Seq<(Vec<char>, ResolvedDef)>) -> Seq<(Seq<char>, ResolvedModel)> {
    t.map_values(|p: (Vec<char>, ResolvedDef)| (p.0@, resolved_model(p.1)))
}

/// What resolving one module's definitions at or past position `i` yields:
/// the resolved entries in declaration order, stopping at the first
/// definition that fails.
pub open spec fn spec_resolve_defs(dm: Seq<(Seq<char>, ParsedModel)>, i: int) -> Result<
    Seq<(Seq<char>, ResolvedModel)>,
    Seq<FaultModel>,
>
    decreases dm.len() - i,
{
    if i < 0 || i >= dm.len() {
        Ok(Seq::empty())
    } else {
        match spec_resolve(dm[i].1) {
            Err(fs) => Err(fs),
            Ok(m) => match spec_resolve_defs(dm, i + 1) {
                Ok(s) => Ok(seq![(dm[i].0, m)] + s),
                Err(fs) => Err(fs),
            },
        }
    }
}

/// What resolving every module at or past position `i` yields: the
/// resolved entries of all modules, in registration then declaration
/// order, stopping at the first definition that fails. Resolution is a
/// function of the modules' parsed shapes alone.
pub open spec fn spec_resolve_modules(mm: Seq<Seq<(Seq<char>, ParsedModel)>>, i: int) -> Result<
    Seq<(Seq<char>, ResolvedModel)>,
    Seq<FaultModel>,
>
    decreases mm.len() - i,
{
    if i < 0 || i >= mm.len() {
        Ok(Seq::empty())
    } else {
        match spec_resolve_defs(mm[i], 0) {
            Err(fs) => Err(fs),
            Ok(s) => match spec_resolve_modules(mm, i + 1) {
                Ok(s2) => Ok(s + s2),
                Err(fs) => Err(fs),
            },
        }
    }
}

/// Determinism of resolution: two compiler instances whose registered
/// modules have the same shape (the same names and parsed definitions, in
/// the same order) resolve to identical descriptor tables. Resolution is a
/// pure function of the modules' shapes, as `resolve_definitions`'
/// contract ties its table to `spec_resolve_modules`.
pub proof fn lemma_resolution_deterministic(mods1: Seq<Asn1Module>, mods2: Seq<Asn1Module>)
    requires
        modules_defs_model(mods1) == modules_defs_model(mods2),
    ensures
        spec_resolve_modules(modules_defs_model(mods1), 0) == spec_resolve_modules(
            modules_defs_model(mods2),
            0,
        ),
{
}

/// Whether a module of the given name is registered.
pub open spec fn has_module(mods: Seq<Asn1Module>, name: Seq<char>) -> bool {
    exists|i: int| 0 <= i < mods.len() && mods[i].name@ == name
}

/// The position of the first registered module of the given name, if any.
pub open spec fn find_module(mods: Seq<Asn1Module>, name: Seq<char>, i: int) -> Option<int>
    decreases mods.len() - i,
{
    if i < 0 || i >= mods.len() {
        None
    } else if mods[i].name@ == name {
        Some(i)
    } else {
        find_module(mods, name, i + 1)
    }
}

/// The first import of module `i` (at or past import position `j`) whose
/// claimed source module is missing, then on through later modules.
pub open spec fn first_bad_import(mods: Seq<Asn1Module>, i: int, j: int) -> Option<(int, int)>
    decreases mods.len() - i, mods[i].imports@.len() - j,
{
    if i < 0 || i >= mods.len() || j < 0 {
        None
    } else if j >= mods[i].imports@.len() {
        first_bad_import(mods, i + 1, 0)
    } else if !has_module(mods, mods[i].imports@[j].1@) {
        Some((i, j))
    } else {
        first_bad_import(mods, i, j + 1)
    }
}

/// The mathematical shape of a module's import associations.
pub open spec fn imports_model(imps: Seq<(Vec<char>, Vec<char>)>) -> Seq<(Seq<char>, Seq<char>)> {
    imps.map_values(|p: (Vec<char>, Vec<char>)| (p.0@, p.1@))
}

/// Resolution never renames a module, never touches its imports, and never
/// changes the name or parsed shape of a definition.
pub open spec fn shape_preserved(oldm: Seq<Asn1Module>, newm: Seq<Asn1Module>) -> bool {
    &&& newm.len() == oldm.len()
    &&& forall|k: int| 0 <= k < oldm.len() ==> (#[trigger] newm[k].name@) == oldm[k].name@
    &&& forall|k: int|
        0 <= k < oldm.len() ==> imports_model(#[trigger] newm[k].imports@) == imports_model(
            oldm[k].imports@,
        )
    &&& modules_defs_model(newm) == modules_defs_model(oldm)
}

/// Whether two character vectors spell the same name.
fn chars_eq(a: &Vec<char>, b: &Vec<char>) -> (r: bool)
    ensures
        r == (a@ == b@),
{
    if a.len() != b.len() {
        return false;
    }
    let mut k: usize = 0;
    while k < a.len()
        invariant
            k <= a@.len() == b@.len(),
            forall|l: int| 0 <= l < k ==> a@[l] == b@[l],
        decreases a@.len() - k,
    {
        if a[k] != b[k] {
            return false;
        }
        k = k + 1;
    }
    proof {
        assert(a@ =~= b@);
    }
    true
}

/// Finds the first literal entry of a named-value list carrying `name`.
fn lookup_literal(list: &Vec<(Vec<char>, NamedValue)>, name: &Vec<char>) -> (r: Option<i64>)
    ensures
        match r {
            Some(v) => spec_lookup_literal(nv_list_model(list@), name@, 0) == Some(v as int),
            None => spec_lookup_literal(nv_list_model(list@), name@, 0) is None,
        },
{
    let mut j: usize = 0;
    while j < list.len()
        invariant
            j <= list@.len(),
            spec_lookup_literal(nv_list_model(list@), name@, 0) == spec_lookup_literal(
                nv_list_model(list@),
                name@,
                j as int,
            ),
        decreases list@.len() - j,
    {
        match &list[j].1 {
            NamedValue::Literal(v) => {
                if chars_eq(&list[j].0, name) {
                    return Some(*v);
                }
            },
            NamedValue::Reference(_) => {},
        }
        j = j + 1;
    }
    None
}

/// Resolves the named values of one INTEGER list, at or past position `i`:
/// literals as-is, references substituted from the same list's literal
/// entries, every unresolvable reference reported.
fn resolve_nvs(list: &Vec<(Vec<char>, NamedValue)>, i: usize) -> (r: Result<
    Vec<(Vec<char>, i64)>,
    Vec<ResolveFault>,
>)
    ensures
        spec_resolve_nvs(nv_list_model(list@), i as int) matches Ok(s) ==> (r matches Ok(v)
            && v@.map_values(|p: (Vec<char>, i64)| (p.0@, p.1 as int)) == s),
        spec_resolve_nvs(nv_list_model(list@), i as int) matches Err(fs) ==> (r matches Err(e)
            && faults_model(e@) == fs),
    decreases list@.len() - i,
{
    if i >= list.len() {
        let out: Vec<(Vec<char>, i64)> = Vec::new();
        proof {
            assert(out@.map_values(|p: (Vec<char>, i64)| (p.0@, p.1 as int)) =~= Seq::<
                (Seq<char>, int),
            >::empty());
        }
        return Ok(out);
    }
    let head: Result<i64, Vec<char>> = match &list[i].1 {
        NamedValue::Literal(v) => Ok(*v),
        NamedValue::Reference(rn) => {
            match lookup_literal(list, rn) {
                Some(v) => Ok(v),
                None => Err(rn.clone()),
            }
        },
    };
    let rest = resolve_nvs(list, i + 1);
    match (head, rest) {
        (Ok(v), Ok(mut s)) => {
            s.insert(0, (list[i].0.clone(), v));
            proof {
                assert(s@.map_values(|p: (Vec<char>, i64)| (p.0@, p.1 as int)) =~= spec_resolve_nvs(
                    nv_list_model(list@),
                    i as int,
                )->Ok_0);
            }
            Ok(s)
        },
        (Ok(_), Err(fs)) => Err(fs),
        (Err(rn), Ok(_)) => {
            let mut fs: Vec<ResolveFault> = Vec::new();
            fs.push(ResolveFault::UnresolvedReference(rn));
            proof {
                assert(faults_model(fs@) =~= spec_resolve_nvs(
                    nv_list_model(list@),
                    i as int,
                )->Err_0);
            }
            Err(fs)
        },
        (Err(rn), Err(mut fs)) => {
            fs.insert(0, ResolveFault::UnresolvedReference(rn));
            proof {
                assert(faults_model(fs@) =~= spec_resolve_nvs(
                    nv_list_model(list@),
                    i as int,
                )->Err_0);
            }
            Err(fs)
        },
    }
}

/// Resolves the CHOICE variants at or past position `i`: every variant
/// must declare a key; every keyless variant is reported.
fn resolve_variants(vs: &Vec<ChoiceVariant>, i: usize) -> (r: Result<
    Vec<(i64, Vec<char>)>,
    Vec<ResolveFault>,
>)
    ensures
        spec_resolve_variants(variants_model(vs@), i as int) matches Ok(s) ==> (r matches Ok(v)
            && v@.map_values(|p: (i64, Vec<char>)| (p.0 as int, p.1@)) == s),
        spec_resolve_variants(variants_model(vs@), i as int) matches Err(fs) ==> (r matches Err(e)
            && faults_model(e@) == fs),
    decreases vs@.len() - i,
{
    if i >= vs.len() {
        let out: Vec<(i64, Vec<char>)> = Vec::new();
        proof {
            assert(out@.map_values(|p: (i64, Vec<char>)| (p.0 as int, p.1@)) =~= Seq::<
                (int, Seq<char>),
            >::empty());
        }
        return Ok(out);
    }
    let head: Result<(i64, Vec<char>), Vec<char>> = match &vs[i].key {
        Some(k) => Ok((*k, vs[i].payload.clone())),
        None => Err(vs[i].name.clone()),
    };
    let rest = resolve_variants(vs, i + 1);
    match (head, rest) {
        (Ok(p), Ok(mut s)) => {
            s.insert(0, p);
            proof {
                assert(s@.map_values(|p: (i64, Vec<char>)| (p.0 as int, p.1@))
                    =~= spec_resolve_variants(variants_model(vs@), i as int)->Ok_0);
            }
            Ok(s)
        },
        (Ok(_), Err(fs)) => Err(fs),
        (Err(n), Ok(_)) => {
            let mut fs: Vec<ResolveFault> = Vec::new();
            fs.push(ResolveFault::MissingKey(n));
            proof {
                assert(faults_model(fs@) =~= spec_resolve_variants(
                    variants_model(vs@),
                    i as int,
                )->Err_0);
            }
            Err(fs)
        },
        (Err(n), Err(mut fs)) => {
            fs.insert(0, ResolveFault::MissingKey(n));
            proof {
                assert(faults_model(fs@) =~= spec_resolve_variants(
                    variants_model(vs@),
                    i as int,
                )->Err_0);
            }
            Err(fs)
        },
    }
}

/// Resolves one parsed definition against the already-resolved
/// definitions. For these constructs the environment decides nothing —
/// INTEGER references are same-list, CHOICE payloads are concrete type
/// identities — so resolution is a function of the parsed shape alone,
/// which is what makes resolution deterministic.
#[allow(unused_variables)]
pub fn resolve_definition(parsed: &ParsedDef, env: &Vec<(Vec<char>, ResolvedDef)>) -> (r: Result<
    ResolvedDef,
    ResolveError,
>)
    ensures
        spec_resolve(parsed_model(*parsed)) matches Ok(m) ==> (r matches Ok(d) && resolved_model(d)
            == m),
        spec_resolve(parsed_model(*parsed)) matches Err(fs) ==> (r matches Err(e) && faults_model(
            e.faults@,
        ) == fs),
{
    match parsed {
        ParsedDef::Integer { ty, constraint } => {
            let nvres: Result<Vec<(Vec<char>, i64)>, Vec<ResolveFault>> = match &ty.named_values {
                None => {
                    let out: Vec<(Vec<char>, i64)> = Vec::new();
                    proof {
                        assert(out@.map_values(|p: (Vec<char>, i64)| (p.0@, p.1 as int)) =~= Seq::<
                            (Seq<char>, int),
                        >::empty());
                    }
                    Ok(out)
                },
                Some(l) => resolve_nvs(l, 0),
            };
            match (constraint, nvres) {
                (None, Ok(_)) => {
                    let mut fs: Vec<ResolveFault> = Vec::new();
                    fs.push(ResolveFault::MissingBounds);
                    proof {
                        assert(faults_model(fs@) =~= seq![FaultModel::MissingBounds]);
                    }
                    Err(ResolveError { faults: fs })
                },
                (None, Err(mut fs)) => {
                    let ghost fs0 = fs@;
                    fs.push(ResolveFault::MissingBounds);
                    proof {
                        assert(faults_model(fs@) =~= faults_model(fs0) + seq![
                            FaultModel::MissingBounds,
                        ]);
                    }
                    Err(ResolveError { faults: fs })
                },
                (Some((lb, ub, ext)), Ok(s)) => Ok(
                    ResolvedDef::Integer { lb: *lb, ub: *ub, ext: *ext, named_values: s },
                ),
                (Some(_), Err(fs)) => Err(ResolveError { faults: fs }),
            }
        },
        ParsedDef::Choice { variants, constraint } => {
            let vres = resolve_variants(variants, 0);
            match (constraint, vres) {
                (None, Ok(_)) => {
                    let mut fs: Vec<ResolveFault> = Vec::new();
                    fs.push(ResolveFault::MissingBounds);
                    proof {
                        assert(faults_model(fs@) =~= seq![FaultModel::MissingBounds]);
                    }
                    Err(ResolveError { faults: fs })
                },
                (None, Err(mut fs)) => {
                    let ghost fs0 = fs@;
                    fs.push(ResolveFault::MissingBounds);
                    proof {
                        assert(faults_model(fs@) =~= faults_model(fs0) + seq![
                            FaultModel::MissingBounds,
                        ]);
                    }
                    Err(ResolveError { faults: fs })
                },
                (Some((lb, ub, ext)), Ok(s)) => Ok(
                    ResolvedDef::Choice { lb: *lb, ub: *ub, ext: *ext, variants: s },
                ),
                (Some(_), Err(fs)) => Err(ResolveError { faults: fs }),
            }
        },
        ParsedDef::BitString { constraint } => {
            match constraint {
                None => {
                    let mut fs: Vec<ResolveFault> = Vec::new();
                    fs.push(ResolveFault::MissingBounds);
                    proof {
                        assert(faults_model(fs@) =~= seq![FaultModel::MissingBounds]);
                    }
                    Err(ResolveError { faults: fs })
                },
                Some((lb, ub, ext)) => Ok(ResolvedDef::BitString { lb: *lb, ub: *ub, ext: *ext }),
            }
        },
    }
}

/// One invocation of the compiler: the registered modules and the global
/// table of resolved definitions. The unit owns both; resolution mutates
/// them through exclusive access, never through shared aliasing.
pub struct Asn1Compiler {
    modules: Vec<Asn1Module>,
    all_definitions: Vec<(Vec<char>, ResolvedDef)>,
}

impl Asn1Compiler {
    /// The registered modules, in registration order.
    pub closed spec fn modules_view(&self) -> Seq<Asn1Module> {
        self.modules@
    }

    /// The shape of the global resolved-definitions table.
    pub closed spec fn table_view(&self) -> Seq<(Seq<char>, ResolvedModel)> {
        table_model(self.all_definitions@)
    }

    /// A compiler with no modules and an empty table.
    pub fn new() -> (r: Self)
        ensures
            r.modules_view() =~= Seq::<Asn1Module>::empty(),
            r.table_view() =~= Seq::<(Seq<char>, ResolvedModel)>::empty(),
    {
        Asn1Compiler { modules: Vec::new(), all_definitions: Vec::new() }
    }

    /// The global resolved-definitions table, in insertion order.
    pub fn resolved_table(&self) -> (r: &Vec<(Vec<char>, ResolvedDef)>)
        ensures
            table_model(r@) == self.table_view(),
    {
        &self.all_definitions
    }

    /// The registered modules, in registration order.
    pub fn registered_modules(&self) -> (r: &Vec<Asn1Module>)
        ensures
            r@ == self.modules_view(),
    {
        &self.modules
    }

    /// Whether a module of the given name is registered.
    fn module_exists(&self, name: &Vec<char>) -> (r: bool)
        ensures
            r == has_module(self.modules_view(), name@),
    {
        let mut k: usize = 0;
        while k < self.modules.len()
            invariant
                k <= self.modules@.len(),
                forall|l: int| 0 <= l < k ==> self.modules@[l].name@ != name@,
            decreases self.modules@.len() - k,
        {
            if chars_eq(&self.modules[k].name, name) {
                return true;
            }
            k = k + 1;
        }
        false
    }

    /// Registers a module under its name. A module of a new name is added
    /// and the call returns `true`; a module of an already-registered name
    /// silently replaces the old one and the call returns `false` — the
    /// sole intentionally permissive behavior of the compiler.
    pub fn add_module(&mut self, module: Asn1Module) -> (r: bool)
        ensures
            final(self).table_view() == old(self).table_view(),
            match find_module(old(self).modules_view(), module.name@, 0) {
                None => r == true && final(self).modules_view() == old(
                    self,
                ).modules_view().push(module),
                Some(i) => r == false && final(self).modules_view() == old(
                    self,
                ).modules_view().update(i, module),
            },
    {
        let mut k: usize = 0;
        while k < self.modules.len()
            invariant
                k <= self.modules@.len(),
                self.modules@ == old(self).modules@,
                self.all_definitions@ == old(self).all_definitions@,
                find_module(self.modules@, module.name@, 0) == find_module(
                    self.modules@,
                    module.name@,
                    k as int,
                ),
            decreases self.modules@.len() - k,
        {
            if chars_eq(&self.modules[k].name, &module.name) {
                self.modules[k] = module;
                return false;
            }
            k = k + 1;
        }
        self.modules.push(module);
        true
    }

    /// Validates that every imported name's claimed source module is
    /// registered, failing fast on the first that is not, reporting the
    /// missing module's name and the imported definition's name. Whether
    /// the definition exists inside the source module is left to
    /// definition resolution: this is the module-level half of the
    /// two-phase check.
    pub fn resolve_imports(&self) -> (r: Result<(), ImportError>)
        ensures
            r is Ok <==> first_bad_import(self.modules_view(), 0, 0) is None,
            first_bad_import(self.modules_view(), 0, 0) matches Some(p) ==> (r matches Err(e)
                && e.module@ == self.modules_view()[p.0].imports@[p.1].1@ && e.import@
                == self.modules_view()[p.0].imports@[p.1].0@),
    {
        let mut m: usize = 0;
        while m < self.modules.len()
            invariant
                m <= self.modules@.len(),
                first_bad_import(self.modules@, 0, 0) == first_bad_import(
                    self.modules@,
                    m as int,
                    0,
                ),
            decreases self.modules@.len() - m,
        {
            let mut j: usize = 0;
            while j < self.modules[m].imports.len()
                invariant
                    m < self.modules@.len(),
                    j <= self.modules@[m as int].imports@.len(),
                    first_bad_import(self.modules@, 0, 0) == first_bad_import(
                        self.modules@,
                        m as int,
                        j as int,
                    ),
                decreases self.modules@[m as int].imports@.len() - j,
            {
                if !self.module_exists(&self.modules[m].imports[j].1) {
                    return Err(
                        ImportError {
                            module: self.modules[m].imports[j].1.clone(),
                            import: self.modules[m].imports[j].0.clone(),
                        },
                    );
                }
                j = j + 1;
            }
            m = m + 1;
        }
        Ok(())
    }

    /// Resolves every definition of every module, in registration then
    /// declaration order, in a single pass: each resolved definition is
    /// appended to the global table under its name and the module's copy
    /// is marked resolved. The first definition that fails stops the pass
    /// and reports that definition's combined faults; earlier insertions
    /// remain. The table rows appended on success are a pure function of
    /// the modules' parsed shapes — resolution is deterministic.
    pub fn resolve_definitions(&mut self) -> (r: Result<(), ResolveError>)
        ensures
            shape_preserved(old(self).modules_view(), final(self).modules_view()),
            spec_resolve_modules(modules_defs_model(old(self).modules_view()), 0) matches Ok(s)
                ==> (r is Ok && final(self).table_view() == old(self).table_view() + s),
            spec_resolve_modules(modules_defs_model(old(self).modules_view()), 0) matches Err(fs)
                ==> (r matches Err(e) && faults_model(e.faults@) == fs),
            r is Ok ==> ({
                let newm = final(self).modules_view();
                forall|k: int, d: int|
                    0 <= k < newm.len() && 0 <= d < newm[k].definitions@.len() ==> (
                    #[trigger] newm[k].definitions@[d].resolved) == true
            }),
    {
        let ghost mm = modules_defs_model(old(self).modules@);
        let ghost mut acc: Seq<(Seq<char>, ResolvedModel)> = Seq::empty();
        proof {
            assert(old(self).table_view() + acc =~= old(self).table_view());
        }
        let mut m: usize = 0;
        while m < self.modules.len()
            invariant
                m <= self.modules@.len(),
                shape_preserved(old(self).modules@, self.modules@),
                mm == modules_defs_model(old(self).modules@),
                self.table_view() == old(self).table_view() + acc,
                match spec_resolve_modules(mm, m as int) {
                    Ok(s) => spec_resolve_modules(mm, 0) == Ok::<
                        Seq<(Seq<char>, ResolvedModel)>,
                        Seq<FaultModel>,
                    >(acc + s),
                    Err(fs) => spec_resolve_modules(mm, 0) == Err::<
                        Seq<(Seq<char>, ResolvedModel)>,
                        Seq<FaultModel>,
                    >(fs),
                },
                forall|k: int, dd: int|
                    0 <= k < m && 0 <= dd < self.modules@[k].definitions@.len() ==> (
                    #[trigger] self.modules@[k].definitions@[dd].resolved) == true,
            decreases self.modules@.len() - m,
        {
            let ghost dm = defs_model(self.modules@[m as int].definitions@);
            proof {
                assert(mm[m as int] == dm);
            }
            let ghost mut dacc: Seq<(Seq<char>, ResolvedModel)> = Seq::empty();
            proof {
                assert(acc + dacc =~= acc);
            }
            let defs_len = self.modules[m].definitions.len();
            let mut d: usize = 0;
            while d < defs_len
                invariant
                    m < self.modules@.len(),
                    d <= defs_len == self.modules@[m as int].definitions@.len(),
                    shape_preserved(old(self).modules@, self.modules@),
                    mm == modules_defs_model(old(self).modules@),
                    dm == mm[m as int],
                    dm == defs_model(self.modules@[m as int].definitions@),
                    self.table_view() == old(self).table_view() + (acc + dacc),
                    match spec_resolve_modules(mm, m as int) {
                        Ok(s) => spec_resolve_modules(mm, 0) == Ok::<
                            Seq<(Seq<char>, ResolvedModel)>,
                            Seq<FaultModel>,
                        >(acc + s),
                        Err(fs) => spec_resolve_modules(mm, 0) == Err::<
                            Seq<(Seq<char>, ResolvedModel)>,
                            Seq<FaultModel>,
                        >(fs),
                    },
                    match spec_resolve_defs(dm, d as int) {
                        Ok(s) => spec_resolve_defs(dm, 0) == Ok::<
                            Seq<(Seq<char>, ResolvedModel)>,
                            Seq<FaultModel>,
                        >(dacc + s),
                        Err(fs) => spec_resolve_defs(dm, 0) == Err::<
                            Seq<(Seq<char>, ResolvedModel)>,
                            Seq<FaultModel>,
                        >(fs),
                    },
                    forall|k: int, dd: int|
                        0 <= k < m && 0 <= dd < self.modules@[k].definitions@.len() ==> (
                        #[trigger] self.modules@[k].definitions@[dd].resolved) == true,
                    forall|dd: int|
                        0 <= dd < d ==> (
                        #[trigger] self.modules@[m as int].definitions@[dd].resolved) == true,
                decreases defs_len - d,
            {
                let resolved = match resolve_definition(
                    &self.modules[m].definitions[d].parsed,
                    &self.all_definitions,
                ) {
                    Ok(x) => x,
                    Err(e) => {
                        return Err(e);
                    },
                };
                let name = self.modules[m].definitions[d].name.clone();
                let ghost row = (name@, resolved_model(resolved));
                let ghost tbl_before = self.all_definitions@;
                self.all_definitions.push((name, resolved));
                proof {
                    assert(table_model(self.all_definitions@) =~= table_model(tbl_before) + seq![
                        row,
                    ]);
                }
                let ghost mods_before = self.modules@;
                self.modules[m].definitions[d].resolved = true;
                proof {
                    let prev = dacc;
                    dacc = dacc + seq![row];
                    assert(self.all_definitions@ == tbl_before.push(
                        (self.all_definitions@.last().0, self.all_definitions@.last().1),
                    )) by {
                        assert(self.all_definitions@ =~= tbl_before.push(
                            self.all_definitions@.last(),
                        ));
                    }
                    assert(self.table_view() =~= old(self).table_view() + (acc + dacc));
                    assert(defs_model(self.modules@[m as int].definitions@) =~= dm);
                    assert(modules_defs_model(self.modules@) =~= modules_defs_model(mods_before));
                    assert(shape_preserved(old(self).modules@, self.modules@));
                    if spec_resolve_defs(dm, d + 1) is Ok {
                        let s = spec_resolve_defs(dm, d + 1)->Ok_0;
                        assert(spec_resolve_defs(dm, d as int) == Ok::<
                            Seq<(Seq<char>, ResolvedModel)>,
                            Seq<FaultModel>,
                        >(seq![row] + s));
                        assert(prev + (seq![row] + s) =~= dacc + s);
                    }
                }
                d = d + 1;
            }
            proof {
                let prev_acc = acc;
                assert(spec_resolve_defs(dm, defs_len as int) == Ok::<
                    Seq<(Seq<char>, ResolvedModel)>,
                    Seq<FaultModel>,
                >(Seq::empty()));
                assert(dacc + Seq::<(Seq<char>, ResolvedModel)>::empty() =~= dacc);
                acc = acc + dacc;
                assert(self.table_view() =~= old(self).table_view() + acc);
                if spec_resolve_modules(mm, m + 1) is Ok {
                    let s2 = spec_resolve_modules(mm, m + 1)->Ok_0;
                    assert(spec_resolve_modules(mm, m as int) == Ok::<
                        Seq<(Seq<char>, ResolvedModel)>,
                        Seq<FaultModel>,
                    >(dacc + s2));
                    assert(prev_acc + (dacc + s2) =~= acc + s2);
                }
            }
            m = m + 1;
        }
        Ok(())
    }
}

} // verus!
