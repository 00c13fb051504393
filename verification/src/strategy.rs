//! The declarative policy: transform rules that normalise a document
//! before comparison, and retain/exclude filters over documents and over
//! diff paths.
//!
//! Every rule path is parsed once and every regular expression compiled
//! once, when the rule is built, so a malformed pattern fails at load
//! time. Rule predicates treat an unresolvable path as "does not match";
//! a replace whose path does not resolve is skipped silently; a write
//! that fails on a type mismatch or a bad index is fatal.

use vstd::prelude::*;
use crate::access::{KeyPathFuncs, set_err_view, spec_get, spec_set};
use crate::error::{DiffError, ErrorV};
use crate::keypath::{ItemKeyV, KeyPath, spec_parse, spec_serialize};
use crate::node::{Node, NodeV, node_eq};
use crate::re::{CompiledRegex, regex_match, regex_replace, regex_valid};

verus! {

/// Mathematical image of a literal scalar of a rule.
#[verifier::ext_equal]
pub enum ScalarV {
    Str(Seq<char>),
    Int(int),
    Real(Seq<char>),
    Bool(bool),
}

/// A literal scalar written in a rule; a real number is carried as its
/// decimal text.
pub enum YamlValue {
    Str(String),
    Int(i64),
    Real(String),
    Bool(bool),
}

impl View for YamlValue {
    type V = ScalarV;

    open spec fn view(&self) -> ScalarV {
        match self {
            YamlValue::Str(s) => ScalarV::Str(s@),
            YamlValue::Int(i) => ScalarV::Int(*i as int),
            YamlValue::Real(s) => ScalarV::Real(s@),
            YamlValue::Bool(b) => ScalarV::Bool(*b),
        }
    }
}

/// The tree node a literal scalar denotes.
pub open spec fn scalar_node(v: ScalarV) -> NodeV {
    match v {
        ScalarV::Str(s) => NodeV::Str(s),
        ScalarV::Int(i) => NodeV::Int(i),
        ScalarV::Real(s) => NodeV::Real(s),
        ScalarV::Bool(b) => NodeV::Bool(b),
    }
}

/// The tree node an optional literal denotes: nothing denotes null.
pub open spec fn opt_scalar_node(v: Option<ScalarV>) -> NodeV {
    match v {
        Some(s) => scalar_node(s),
        None => NodeV::Null,
    }
}

impl YamlValue {
    /// The tree node this literal denotes.
    pub fn to_node(&self) -> (r: Node)
        ensures
            r@ == scalar_node(self@),
    {
        match self {
            YamlValue::Str(s) => Node::Str(s.clone()),
            YamlValue::Int(i) => Node::Int(*i),
            YamlValue::Real(s) => Node::Real(s.clone()),
            YamlValue::Bool(b) => Node::Bool(*b),
        }
    }

    /// Whether a tree node equals this literal, type-sensitively.
    pub fn equal_node(&self, n: &Node) -> (r: bool)
        ensures
            r == (n@ == scalar_node(self@)),
    {
        let lit = self.to_node();
        node_eq(n, &lit)
    }
}

/// Mathematical image of a select predicate.
#[verifier::ext_equal]
pub enum PropertySelectV {
    Value { path: Seq<ItemKeyV>, value: ScalarV },
    Regex { path: Seq<ItemKeyV>, pattern: Seq<char> },
}

/// A select predicate: the value at a path equals a literal, or — for
/// string values only — matches a regular expression.
pub enum PropertySelect {
    Value { path: KeyPath, value: YamlValue },
    Regex { path: KeyPath, regex: CompiledRegex },
}

impl View for PropertySelect {
    type V = PropertySelectV;

    open spec fn view(&self) -> PropertySelectV {
        match self {
            PropertySelect::Value { path, value } => PropertySelectV::Value {
                path: path@,
                value: value@,
            },
            PropertySelect::Regex { path, regex } => PropertySelectV::Regex {
                path: path@,
                pattern: regex.pattern_view(),
            },
        }
    }
}

/// Whether a select predicate holds of a document: an unresolvable path
/// never matches, and a regex predicate matches string values only.
pub open spec fn select_accepts(s: PropertySelectV, n: NodeV) -> bool {
    match s {
        PropertySelectV::Value { path, value } => spec_get(n, path) == Ok::<NodeV, int>(
            scalar_node(value),
        ),
        PropertySelectV::Regex { path, pattern } => {
            &&& spec_get(n, path) is Ok
            &&& spec_get(n, path)->Ok_0 is Str
            &&& regex_match(pattern, spec_get(n, path)->Ok_0->Str_0)
        },
    }
}

impl PropertySelect {
    /// A predicate asking for an exact literal value at a path.
    pub fn value(path: &str, value: YamlValue) -> (r: PropertySelect)
        ensures
            r@ == (PropertySelectV::Value { path: spec_parse(path@), value: value@ }),
    {
        PropertySelect::Value { path: KeyPath::parse(path), value }
    }

    /// A predicate asking for a regular expression match at a path.
    pub fn regex(path: &str, pattern: &str) -> (r: Result<PropertySelect, DiffError>)
        ensures
            r is Ok <==> regex_valid(pattern@),
            r is Ok ==> r->Ok_0@ == (PropertySelectV::Regex {
                path: spec_parse(path@),
                pattern: pattern@,
            }),
            r is Err ==> r->Err_0@ == ErrorV::PatternSyntax(pattern@),
    {
        match CompiledRegex::compile(pattern) {
            Ok(re) => Ok(PropertySelect::Regex { path: KeyPath::parse(path), regex: re }),
            Err(e) => Err(e),
        }
    }

    /// Whether this predicate holds of a document.
    pub fn accept(&self, y: &Node) -> (r: bool)
        ensures
            r == select_accepts(self@, y@),
    {
        match self {
            PropertySelect::Value { path, value } => {
                match y.get_at_path(path) {
                    Err(_) => false,
                    Ok(cur) => value.equal_node(cur),
                }
            },
            PropertySelect::Regex { path, regex } => {
                match y.get_at_path(path) {
                    Err(_) => false,
                    Ok(cur) => match cur.as_str() {
                        Some(s) => regex.is_match(s.as_str()),
                        None => false,
                    },
                }
            },
        }
    }
}

/// Whether every predicate of a list holds of a document.
pub open spec fn all_select(sel: Seq<PropertySelectV>, n: NodeV) -> bool {
    forall|i: int| 0 <= i < sel.len() ==> select_accepts(#[trigger] sel[i], n)
}

/// The image of a vector of select predicates.
pub open spec fn selects_view(v: Seq<PropertySelect>) -> Seq<PropertySelectV> {
    v.map_values(|s: PropertySelect| s@)
}

/// Whether every predicate in a vector holds of a document.
pub fn accept_all_selects(sel: &Vec<PropertySelect>, y: &Node) -> (r: bool)
    ensures
        r == all_select(selects_view(sel@), y@),
{
    let mut i: usize = 0;
    while i < sel.len()
        invariant
            i <= sel@.len(),
            forall|j: int|
                0 <= j < i ==> select_accepts(#[trigger] selects_view(sel@)[j], y@),
        decreases sel@.len() - i,
    {
        if !sel[i].accept(y) {
            proof {
                assert(selects_view(sel@)[i as int] == sel@[i as int]@);
            }
            return false;
        }
        i = i + 1;
    }
    true
}

/// Mathematical image of a replace rule.
#[verifier::ext_equal]
pub enum ReplaceV {
    Value { path: Seq<ItemKeyV>, value: ScalarV, with: Option<ScalarV> },
    Regex { path: Seq<ItemKeyV>, pattern: Seq<char>, with: Seq<char> },
}

/// A replace rule: replace an exact literal at a path with another
/// literal (or null), or rewrite a string value through a regular
/// expression substitution.
pub enum ReplaceTransform {
    Value { path: KeyPath, value: YamlValue, with: Option<YamlValue> },
    Regex { path: KeyPath, regex: CompiledRegex, with: String },
}

impl View for ReplaceTransform {
    type V = ReplaceV;

    open spec fn view(&self) -> ReplaceV {
        match self {
            ReplaceTransform::Value { path, value, with } => ReplaceV::Value {
                path: path@,
                value: value@,
                with: match with {
                    Some(w) => Some(w@),
                    None => None,
                },
            },
            ReplaceTransform::Regex { path, regex, with } => ReplaceV::Regex {
                path: path@,
                pattern: regex.pattern_view(),
                with: with@,
            },
        }
    }
}

impl ReplaceTransform {
    /// A replace of an exact literal value.
    pub fn value(path: &str, value: YamlValue, with: Option<YamlValue>) -> (r: ReplaceTransform)
        ensures
            r@ == (ReplaceV::Value {
                path: spec_parse(path@),
                value: value@,
                with: (match with {
                    Some(w) => Some(w@),
                    None => None,
                }),
            }),
    {
        ReplaceTransform::Value { path: KeyPath::parse(path), value, with }
    }

    /// A regular-expression substitution on a string value.
    pub fn regex(path: &str, pattern: &str, with: &str) -> (r: Result<ReplaceTransform, DiffError>)
        ensures
            r is Ok <==> regex_valid(pattern@),
            r is Ok ==> r->Ok_0@ == (ReplaceV::Regex {
                path: spec_parse(path@),
                pattern: pattern@,
                with: with@,
            }),
            r is Err ==> r->Err_0@ == ErrorV::PatternSyntax(pattern@),
    {
        match CompiledRegex::compile(pattern) {
            Ok(re) => Ok(
                ReplaceTransform::Regex {
                    path: KeyPath::parse(path),
                    regex: re,
                    with: with.to_owned(),
                },
            ),
            Err(e) => Err(e),
        }
    }
}

/// One replace rule applied to a document: an unresolvable path skips the
/// rule; a failed write is fatal.
pub open spec fn apply_replace_one(r: ReplaceV, n: NodeV) -> Result<NodeV, ErrorV> {
    match r {
        ReplaceV::Value { path, value, with } => {
            match spec_get(n, path) {
                Err(_) => Ok(n),
                Ok(cur) => {
                    if cur == scalar_node(value) {
                        match spec_set(n, path, opt_scalar_node(with)) {
                            Ok(n2) => Ok(n2),
                            Err(e) => Err(set_err_view(e, path)),
                        }
                    } else {
                        Ok(n)
                    }
                },
            }
        },
        ReplaceV::Regex { path, pattern, with } => {
            match spec_get(n, path) {
                Err(_) => Ok(n),
                Ok(cur) => {
                    if cur is Str {
                        match spec_set(n, path, NodeV::Str(regex_replace(pattern, cur->Str_0, with))) {
                            Ok(n2) => Ok(n2),
                            Err(e) => Err(set_err_view(e, path)),
                        }
                    } else {
                        Ok(n)
                    }
                },
            }
        },
    }
}

/// A list of replace rules applied in order; the first failure aborts.
pub open spec fn apply_replaces(rs: Seq<ReplaceV>, n: NodeV) -> Result<NodeV, ErrorV>
    decreases rs.len(),
{
    if rs.len() == 0 {
        Ok(n)
    } else {
        match apply_replace_one(rs[0], n) {
            Err(e) => Err(e),
            Ok(n1) => apply_replaces(rs.drop_first(), n1),
        }
    }
}

/// An unconditional write of a literal at a path.
pub struct YamlPathAndValue {
    pub path: KeyPath,
    pub value: YamlValue,
}

impl View for YamlPathAndValue {
    type V = (Seq<ItemKeyV>, ScalarV);

    open spec fn view(&self) -> (Seq<ItemKeyV>, ScalarV) {
        (self.path@, self.value@)
    }
}

impl YamlPathAndValue {
    pub fn new(path: &str, value: YamlValue) -> (r: YamlPathAndValue)
        ensures
            r@ == (spec_parse(path@), value@),
    {
        YamlPathAndValue { path: KeyPath::parse(path), value }
    }
}

/// A list of set rules applied in order; the first failure aborts.
pub open spec fn apply_sets(ss: Seq<(Seq<ItemKeyV>, ScalarV)>, n: NodeV) -> Result<NodeV, ErrorV>
    decreases ss.len(),
{
    if ss.len() == 0 {
        Ok(n)
    } else {
        match spec_set(n, ss[0].0, scalar_node(ss[0].1)) {
            Err(e) => Err(set_err_view(e, ss[0].0)),
            Ok(n1) => apply_sets(ss.drop_first(), n1),
        }
    }
}

/// Mathematical image of a transform rule.
#[verifier::ext_equal]
pub struct TransformSpecV {
    pub select: Seq<PropertySelectV>,
    pub replace: Seq<ReplaceV>,
    pub set: Seq<(Seq<ItemKeyV>, ScalarV)>,
    pub drop: bool,
}

/// One transform rule: when every select predicate matches, either drop
/// the whole document, or run its replaces then its sets.
pub struct TransformSpec {
    pub select: Vec<PropertySelect>,
    pub replace: Vec<ReplaceTransform>,
    pub set: Vec<YamlPathAndValue>,
    pub drop: bool,
}

impl View for TransformSpec {
    type V = TransformSpecV;

    open spec fn view(&self) -> TransformSpecV {
        TransformSpecV {
            select: selects_view(self.select@),
            replace: self.replace@.map_values(|r: ReplaceTransform| r@),
            set: self.set@.map_values(|s: YamlPathAndValue| s@),
            drop: self.drop,
        }
    }
}

/// One transform rule applied to one document.
pub open spec fn spec_apply(ts: TransformSpecV, n: NodeV) -> Result<NodeV, ErrorV> {
    if !all_select(ts.select, n) {
        Ok(n)
    } else if ts.drop {
        Ok(NodeV::Null)
    } else {
        match apply_replaces(ts.replace, n) {
            Err(e) => Err(e),
            Ok(n1) => apply_sets(ts.set, n1),
        }
    }
}

impl TransformSpec {
    /// A rule with no predicates and no actions.
    pub fn new() -> (r: TransformSpec)
        ensures
            r@ == (TransformSpecV {
                select: Seq::<PropertySelectV>::empty(),
                replace: Seq::<ReplaceV>::empty(),
                set: Seq::<(Seq<ItemKeyV>, ScalarV)>::empty(),
                drop: false,
            }),
    {
        let r = TransformSpec { select: Vec::new(), replace: Vec::new(), set: Vec::new(), drop: false };
        proof {
            assert(r@.select =~= Seq::<PropertySelectV>::empty());
            assert(r@.replace =~= Seq::<ReplaceV>::empty());
            assert(r@.set =~= Seq::<(Seq<ItemKeyV>, ScalarV)>::empty());
        }
        r
    }

    /// Whether every select predicate of the rule matches the document.
    pub fn select(&self, y: &Node) -> (r: bool)
        ensures
            r == all_select(self@.select, y@),
    {
        accept_all_selects(&self.select, y)
    }

    /// Runs the rule's replaces in order.
    pub fn apply_replace(&self, y: &mut Node) -> (r: Result<(), DiffError>)
        ensures
            (match r {
                Ok(()) => apply_replaces(self@.replace, old(y)@) == Ok::<NodeV, ErrorV>(
                    final(y)@,
                ),
                Err(e) => apply_replaces(self@.replace, old(y)@) is Err && e@ == apply_replaces(
                    self@.replace,
                    old(y)@,
                )->Err_0,
            }),
    {
        let ghost rs = self@.replace;
        let mut i: usize = 0;
        proof {
            assert(rs.skip(0) =~= rs);
        }
        while i < self.replace.len()
            invariant
                i <= self.replace@.len(),
                rs == self@.replace,
                rs.len() == self.replace@.len(),
                forall|j: int| 0 <= j < rs.len() ==> #[trigger] rs[j] == self.replace@[j]@,
                apply_replaces(rs, old(y)@) == apply_replaces(rs.skip(i as int), y@),
            decreases self.replace@.len() - i,
        {
            let ghost rest = rs.skip(i as int);
            proof {
                assert(rest[0] == rs[i as int]);
                assert(rest.drop_first() =~= rs.skip(i as int + 1));
            }
            match &self.replace[i] {
                ReplaceTransform::Value { path, value, with } => {
                    let do_set = match y.get_at_path(path) {
                        Err(_) => false,
                        Ok(cur) => value.equal_node(cur),
                    };
                    if do_set {
                        let newv = match with {
                            Some(w) => w.to_node(),
                            None => Node::Null,
                        };
                        match y.set_at_path(path, newv) {
                            Ok(()) => (),
                            Err(e) => {
                                return Err(e);
                            },
                        }
                    }
                },
                ReplaceTransform::Regex { path, regex, with } => {
                    let rep: Option<String> = match y.get_at_path(path) {
                        Err(_) => None,
                        Ok(cur) => match cur.as_str() {
                            Some(s) => Some(regex.replace_all(s.as_str(), with.as_str())),
                            None => None,
                        },
                    };
                    if let Some(reptext) = rep {
                        match y.set_at_path(path, Node::Str(reptext)) {
                            Ok(()) => (),
                            Err(e) => {
                                return Err(e);
                            },
                        }
                    }
                },
            }
            i = i + 1;
        }
        proof {
            assert(rs.skip(rs.len() as int) =~= Seq::<ReplaceV>::empty());
        }
        Ok(())
    }

    /// Runs the rule's sets in order.
    pub fn apply_set(&self, y: &mut Node) -> (r: Result<(), DiffError>)
        ensures
            (match r {
                Ok(()) => apply_sets(self@.set, old(y)@) == Ok::<NodeV, ErrorV>(final(y)@),
                Err(e) => apply_sets(self@.set, old(y)@) is Err && e@ == apply_sets(
                    self@.set,
                    old(y)@,
                )->Err_0,
            }),
    {
        let ghost ss = self@.set;
        let mut i: usize = 0;
        proof {
            assert(ss.skip(0) =~= ss);
        }
        while i < self.set.len()
            invariant
                i <= self.set@.len(),
                ss == self@.set,
                ss.len() == self.set@.len(),
                forall|j: int| 0 <= j < ss.len() ==> #[trigger] ss[j] == self.set@[j]@,
                apply_sets(ss, old(y)@) == apply_sets(ss.skip(i as int), y@),
            decreases self.set@.len() - i,
        {
            let ghost rest = ss.skip(i as int);
            proof {
                assert(rest[0] == ss[i as int]);
                assert(rest.drop_first() =~= ss.skip(i as int + 1));
            }
            let value = self.set[i].value.to_node();
            match y.set_at_path(&self.set[i].path, value) {
                Ok(()) => (),
                Err(e) => {
                    return Err(e);
                },
            }
            i = i + 1;
        }
        proof {
            assert(ss.skip(ss.len() as int) =~= Seq::<(Seq<ItemKeyV>, ScalarV)>::empty());
        }
        Ok(())
    }

    /// Replaces the whole document with null when the rule says to drop
    /// it.
    pub fn apply_drop(&self, y: &mut Node) -> (r: bool)
        ensures
            r == self@.drop,
            r ==> final(y)@ == NodeV::Null,
            !r ==> *final(y) == *old(y),
    {
        if self.drop {
            *y = Node::Null;
            true
        } else {
            false
        }
    }

    /// Applies the whole rule to one document.
    pub fn apply(&self, y: &mut Node) -> (r: Result<(), DiffError>)
        ensures
            (match r {
                Ok(()) => spec_apply(self@, old(y)@) == Ok::<NodeV, ErrorV>(final(y)@),
                Err(e) => spec_apply(self@, old(y)@) is Err && e@ == spec_apply(
                    self@,
                    old(y)@,
                )->Err_0,
            }),
    {
        if self.select(y) {
            if !self.apply_drop(y) {
                match self.apply_replace(y) {
                    Ok(()) => (),
                    Err(e) => {
                        return Err(e);
                    },
                }
                match self.apply_set(y) {
                    Ok(()) => (),
                    Err(e) => {
                        return Err(e);
                    },
                }
            }
        }
        Ok(())
    }
}

/// Mathematical image of the transform facet.
#[verifier::ext_equal]
pub struct TransformV {
    pub original: Seq<TransformSpecV>,
    pub modified: Seq<TransformSpecV>,
    pub both: Seq<TransformSpecV>,
}

/// The transform facet: rules for the original side only, the modified
/// side only, and both sides.
pub struct Transform {
    pub original: Vec<TransformSpec>,
    pub modified: Vec<TransformSpec>,
    pub both: Vec<TransformSpec>,
}

impl View for Transform {
    type V = TransformV;

    open spec fn view(&self) -> TransformV {
        TransformV {
            original: self.original@.map_values(|t: TransformSpec| t@),
            modified: self.modified@.map_values(|t: TransformSpec| t@),
            both: self.both@.map_values(|t: TransformSpec| t@),
        }
    }
}

/// A list of transform rules applied in order; the first failure aborts.
pub open spec fn apply_spec_list(ts: Seq<TransformSpecV>, n: NodeV) -> Result<NodeV, ErrorV>
    decreases ts.len(),
{
    if ts.len() == 0 {
        Ok(n)
    } else {
        match spec_apply(ts[0], n) {
            Err(e) => Err(e),
            Ok(n1) => apply_spec_list(ts.drop_first(), n1),
        }
    }
}

/// Runs a vector of transform rules in order over one document.
fn apply_spec_vec(ts: &Vec<TransformSpec>, y: &mut Node) -> (r: Result<(), DiffError>)
    ensures
        (match r {
            Ok(()) => apply_spec_list(ts@.map_values(|t: TransformSpec| t@), old(y)@) == Ok::<
                NodeV,
                ErrorV,
            >(final(y)@),
            Err(e) => apply_spec_list(ts@.map_values(|t: TransformSpec| t@), old(y)@) is Err && e@
                == apply_spec_list(ts@.map_values(|t: TransformSpec| t@), old(y)@)->Err_0,
        }),
{
    let ghost list = ts@.map_values(|t: TransformSpec| t@);
    let mut i: usize = 0;
    proof {
        assert(list.skip(0) =~= list);
    }
    while i < ts.len()
        invariant
            i <= ts@.len(),
            list == ts@.map_values(|t: TransformSpec| t@),
            list.len() == ts@.len(),
            apply_spec_list(list, old(y)@) == apply_spec_list(list.skip(i as int), y@),
        decreases ts@.len() - i,
    {
        let ghost rest = list.skip(i as int);
        proof {
            assert(rest[0] == list[i as int]);
            assert(rest.drop_first() =~= list.skip(i as int + 1));
        }
        match ts[i].apply(y) {
            Ok(()) => (),
            Err(e) => {
                return Err(e);
            },
        }
        i = i + 1;
    }
    proof {
        assert(list.skip(list.len() as int) =~= Seq::<TransformSpecV>::empty());
    }
    Ok(())
}

/// The transform pipeline for one side: the side's own rules, then the
/// rules for both sides.
pub open spec fn spec_transform(t: TransformV, n: NodeV, modified: bool) -> Result<NodeV, ErrorV> {
    match apply_spec_list(
        if modified {
            t.modified
        } else {
            t.original
        },
        n,
    ) {
        Err(e) => Err(e),
        Ok(n1) => apply_spec_list(t.both, n1),
    }
}

/// Mathematical image of a path filter rule.
#[verifier::ext_equal]
pub enum PathRuleV {
    Regex(Seq<char>),
    Name(Seq<char>),
}

/// A path filter rule: a regular expression matched against the
/// serialized path, or an exact path text.
pub enum PathFilterRule {
    Regex(CompiledRegex),
    Name(String),
}

impl View for PathFilterRule {
    type V = PathRuleV;

    open spec fn view(&self) -> PathRuleV {
        match self {
            PathFilterRule::Regex(re) => PathRuleV::Regex(re.pattern_view()),
            PathFilterRule::Name(n) => PathRuleV::Name(n@),
        }
    }
}

/// Whether a path filter rule accepts a path.
pub open spec fn path_rule_accepts(r: PathRuleV, p: Seq<ItemKeyV>) -> bool {
    match r {
        PathRuleV::Regex(pat) => regex_match(pat, spec_serialize(p)),
        PathRuleV::Name(name) => name == spec_serialize(p),
    }
}

impl PathFilterRule {
    /// A rule matching paths by regular expression.
    pub fn regex(pattern: &str) -> (r: Result<PathFilterRule, DiffError>)
        ensures
            r is Ok <==> regex_valid(pattern@),
            r is Ok ==> r->Ok_0@ == PathRuleV::Regex(pattern@),
            r is Err ==> r->Err_0@ == ErrorV::PatternSyntax(pattern@),
    {
        match CompiledRegex::compile(pattern) {
            Ok(re) => Ok(PathFilterRule::Regex(re)),
            Err(e) => Err(e),
        }
    }

    /// A rule matching one exact path text.
    pub fn name(text: &str) -> (r: PathFilterRule)
        ensures
            r@ == PathRuleV::Name(text@),
    {
        PathFilterRule::Name(text.to_owned())
    }

    /// Whether this rule accepts a path.
    pub fn accept(&self, path: &KeyPath) -> (r: bool)
        ensures
            r == path_rule_accepts(self@, path@),
    {
        let text = path.to_text();
        match self {
            PathFilterRule::Regex(re) => re.is_match(text.as_str()),
            PathFilterRule::Name(name) => name.eq(&text),
        }
    }
}

/// Mathematical image of the path filter.
#[verifier::ext_equal]
pub struct PathFilterSpecV {
    pub retain: Seq<PathRuleV>,
    pub exclude: Seq<PathRuleV>,
}

/// The path filter: a path survives when some retain rule accepts it (or
/// there are none) and no exclude rule does.
pub struct PathFilterSpec {
    pub retain: Vec<PathFilterRule>,
    pub exclude: Vec<PathFilterRule>,
}

impl View for PathFilterSpec {
    type V = PathFilterSpecV;

    open spec fn view(&self) -> PathFilterSpecV {
        PathFilterSpecV {
            retain: self.retain@.map_values(|r: PathFilterRule| r@),
            exclude: self.exclude@.map_values(|r: PathFilterRule| r@),
        }
    }
}

pub open spec fn path_filter_accepts(f: PathFilterSpecV, p: Seq<ItemKeyV>) -> bool {
    &&& (f.retain.len() == 0 || exists|i: int|
        0 <= i < f.retain.len() && path_rule_accepts(#[trigger] f.retain[i], p))
    &&& !(exists|j: int|
        0 <= j < f.exclude.len() && path_rule_accepts(#[trigger] f.exclude[j], p))
}

/// Whether any rule of a list accepts a path.
fn any_path_rule(rules: &Vec<PathFilterRule>, path: &KeyPath) -> (r: bool)
    ensures
        r == (exists|i: int|
            0 <= i < rules@.len() && path_rule_accepts((#[trigger] rules@[i])@, path@)),
{
    let mut i: usize = 0;
    while i < rules.len()
        invariant
            i <= rules@.len(),
            forall|k: int| 0 <= k < i ==> !path_rule_accepts((#[trigger] rules@[k])@, path@),
        decreases rules@.len() - i,
    {
        if rules[i].accept(path) {
            return true;
        }
        i = i + 1;
    }
    false
}

impl PathFilterSpec {
    /// Whether a path survives the filter.
    pub fn accept(&self, path: &KeyPath) -> (r: bool)
        ensures
            r == path_filter_accepts(self@, path@),
    {
        let inc_ok = self.retain.len() == 0 || any_path_rule(&self.retain, path);
        let exc_hit = any_path_rule(&self.exclude, path);
        proof {
            assert(self@.retain.len() == self.retain@.len());
            assert(self@.exclude.len() == self.exclude@.len());
            assert forall|i: int| 0 <= i < self.retain@.len() implies (#[trigger] self@.retain[i])
                == self.retain@[i]@ by {}
            assert forall|i: int| 0 <= i < self.exclude@.len() implies (
            #[trigger] self@.exclude[i]) == self.exclude@[i]@ by {}
            if exists|i: int|
                0 <= i < self.retain@.len() && path_rule_accepts(
                    (#[trigger] self.retain@[i])@,
                    path@,
                ) {
                let i = choose|i: int|
                    0 <= i < self.retain@.len() && path_rule_accepts(
                        (#[trigger] self.retain@[i])@,
                        path@,
                    );
                assert(path_rule_accepts(self@.retain[i], path@));
            }
            if exists|i: int|
                0 <= i < self@.retain.len() && path_rule_accepts(#[trigger] self@.retain[i], path@) {
                let i = choose|i: int|
                    0 <= i < self@.retain.len() && path_rule_accepts(
                        #[trigger] self@.retain[i],
                        path@,
                    );
                assert(path_rule_accepts(self.retain@[i]@, path@));
            }
            if exists|i: int|
                0 <= i < self.exclude@.len() && path_rule_accepts(
                    (#[trigger] self.exclude@[i])@,
                    path@,
                ) {
                let i = choose|i: int|
                    0 <= i < self.exclude@.len() && path_rule_accepts(
                        (#[trigger] self.exclude@[i])@,
                        path@,
                    );
                assert(path_rule_accepts(self@.exclude[i], path@));
            }
            if exists|i: int|
                0 <= i < self@.exclude.len() && path_rule_accepts(
                    #[trigger] self@.exclude[i],
                    path@,
                ) {
                let i = choose|i: int|
                    0 <= i < self@.exclude.len() && path_rule_accepts(
                        #[trigger] self@.exclude[i],
                        path@,
                    );
                assert(path_rule_accepts(self.exclude@[i]@, path@));
            }
        }
        inc_ok && !exc_hit
    }
}

/// Mathematical image of a document filter rule.
#[verifier::ext_equal]
pub struct DocRuleV {
    pub select: Seq<PropertySelectV>,
}

/// A document filter rule: a list of select predicates that must all
/// hold.
pub struct DocumentFilterRule {
    pub select: Vec<PropertySelect>,
}

impl View for DocumentFilterRule {
    type V = DocRuleV;

    open spec fn view(&self) -> DocRuleV {
        DocRuleV { select: selects_view(self.select@) }
    }
}

impl DocumentFilterRule {
    /// Whether this rule accepts a document.
    pub fn accept(&self, y: &Node) -> (r: bool)
        ensures
            r == all_select(self@.select, y@),
    {
        accept_all_selects(&self.select, y)
    }
}

/// Mathematical image of the document filter.
#[verifier::ext_equal]
pub struct DocFilterSpecV {
    pub retain: Seq<DocRuleV>,
    pub exclude: Seq<DocRuleV>,
}

/// The document filter: a document survives when some retain rule
/// accepts it (or there are none) and no exclude rule does.
pub struct DocumentFilterSpec {
    pub retain: Vec<DocumentFilterRule>,
    pub exclude: Vec<DocumentFilterRule>,
}

impl View for DocumentFilterSpec {
    type V = DocFilterSpecV;

    open spec fn view(&self) -> DocFilterSpecV {
        DocFilterSpecV {
            retain: self.retain@.map_values(|r: DocumentFilterRule| r@),
            exclude: self.exclude@.map_values(|r: DocumentFilterRule| r@),
        }
    }
}

pub open spec fn doc_filter_accepts(f: DocFilterSpecV, n: NodeV) -> bool {
    &&& (f.retain.len() == 0 || exists|i: int|
        0 <= i < f.retain.len() && all_select((#[trigger] f.retain[i]).select, n))
    &&& !(exists|j: int|
        0 <= j < f.exclude.len() && all_select((#[trigger] f.exclude[j]).select, n))
}

/// Whether any rule of a list accepts a document.
fn any_doc_rule(rules: &Vec<DocumentFilterRule>, y: &Node) -> (r: bool)
    ensures
        r == (exists|i: int|
            0 <= i < rules@.len() && all_select((#[trigger] rules@[i])@.select, y@)),
{
    let mut i: usize = 0;
    while i < rules.len()
        invariant
            i <= rules@.len(),
            forall|k: int| 0 <= k < i ==> !all_select((#[trigger] rules@[k])@.select, y@),
        decreases rules@.len() - i,
    {
        if rules[i].accept(y) {
            return true;
        }
        i = i + 1;
    }
    false
}

impl DocumentFilterSpec {
    /// Whether a document survives the filter.
    pub fn accept(&self, y: &Node) -> (r: bool)
        ensures
            r == doc_filter_accepts(self@, y@),
    {
        let inc_ok = self.retain.len() == 0 || any_doc_rule(&self.retain, y);
        let exc_hit = any_doc_rule(&self.exclude, y);
        proof {
            assert(self@.retain.len() == self.retain@.len());
            assert(self@.exclude.len() == self.exclude@.len());
            assert forall|i: int| 0 <= i < self.retain@.len() implies (#[trigger] self@.retain[i])
                == self.retain@[i]@ by {}
            assert forall|i: int| 0 <= i < self.exclude@.len() implies (
            #[trigger] self@.exclude[i]) == self.exclude@[i]@ by {}
            if exists|i: int|
                0 <= i < self.retain@.len() && all_select((#[trigger] self.retain@[i])@.select, y@) {
                let i = choose|i: int|
                    0 <= i < self.retain@.len() && all_select(
                        (#[trigger] self.retain@[i])@.select,
                        y@,
                    );
                assert(all_select(self@.retain[i].select, y@));
            }
            if exists|i: int|
                0 <= i < self@.retain.len() && all_select(
                    (#[trigger] self@.retain[i]).select,
                    y@,
                ) {
                let i = choose|i: int|
                    0 <= i < self@.retain.len() && all_select(
                        (#[trigger] self@.retain[i]).select,
                        y@,
                    );
                assert(all_select(self.retain@[i]@.select, y@));
            }
            if exists|i: int|
                0 <= i < self.exclude@.len() && all_select(
                    (#[trigger] self.exclude@[i])@.select,
                    y@,
                ) {
                let i = choose|i: int|
                    0 <= i < self.exclude@.len() && all_select(
                        (#[trigger] self.exclude@[i])@.select,
                        y@,
                    );
                assert(all_select(self@.exclude[i].select, y@));
            }
            if exists|i: int|
                0 <= i < self@.exclude.len() && all_select(
                    (#[trigger] self@.exclude[i]).select,
                    y@,
                ) {
                let i = choose|i: int|
                    0 <= i < self@.exclude.len() && all_select(
                        (#[trigger] self@.exclude[i]).select,
                        y@,
                    );
                assert(all_select(self.exclude@[i]@.select, y@));
            }
        }
        inc_ok && !exc_hit
    }
}

/// Mathematical image of the filter facet.
#[verifier::ext_equal]
pub struct FilterV {
    pub path: Option<PathFilterSpecV>,
    pub document: Option<DocFilterSpecV>,
}

/// The filter facet: an optional path filter and an optional document
/// filter.
pub struct Filter {
    pub path: Option<PathFilterSpec>,
    pub document: Option<DocumentFilterSpec>,
}

impl View for Filter {
    type V = FilterV;

    open spec fn view(&self) -> FilterV {
        FilterV {
            path: match &self.path {
                Some(p) => Some(p@),
                None => None,
            },
            document: match &self.document {
                Some(d) => Some(d@),
                None => None,
            },
        }
    }
}

/// Mathematical image of a whole strategy.
#[verifier::ext_equal]
pub struct StrategyV {
    pub transform: Option<TransformV>,
    pub filter: Option<FilterV>,
}

/// A whole policy: an optional transform facet and an optional filter
/// facet.
pub struct Strategy {
    pub transform: Option<Transform>,
    pub filter: Option<Filter>,
}

impl View for Strategy {
    type V = StrategyV;

    open spec fn view(&self) -> StrategyV {
        StrategyV {
            transform: match &self.transform {
                Some(t) => Some(t@),
                None => None,
            },
            filter: match &self.filter {
                Some(f) => Some(f@),
                None => None,
            },
        }
    }
}

/// The strategy's transform applied to one document of one side.
pub open spec fn spec_strategy_transform(s: StrategyV, n: NodeV, modified: bool) -> Result<
    NodeV,
    ErrorV,
> {
    match s.transform {
        None => Ok(n),
        Some(t) => spec_transform(t, n, modified),
    }
}

/// Whether the strategy's path filter keeps a diff at a path.
pub open spec fn spec_filter_accept(s: StrategyV, p: Seq<ItemKeyV>) -> bool {
    match s.filter {
        None => true,
        Some(f) => match f.path {
            None => true,
            Some(pf) => path_filter_accepts(pf, p),
        },
    }
}

/// Whether the strategy's document filter keeps a document.
pub open spec fn spec_accept_document(s: StrategyV, n: NodeV) -> bool {
    match s.filter {
        None => true,
        Some(f) => match f.document {
            None => true,
            Some(df) => doc_filter_accepts(df, n),
        },
    }
}

impl Strategy {
    /// Applies the transform rules for one side to one document: first
    /// the side's own rules, then the rules for both sides, in order.
    pub fn transform(&self, y: &mut Node, modified: bool) -> (r: Result<(), DiffError>)
        ensures
            (match r {
                Ok(()) => spec_strategy_transform(self@, old(y)@, modified) == Ok::<
                    NodeV,
                    ErrorV,
                >(final(y)@),
                Err(e) => spec_strategy_transform(self@, old(y)@, modified) is Err && e@
                    == spec_strategy_transform(self@, old(y)@, modified)->Err_0,
            }),
    {
        match &self.transform {
            None => Ok(()),
            Some(t) => {
                let side = if modified {
                    &t.modified
                } else {
                    &t.original
                };
                match apply_spec_vec(side, y) {
                    Ok(()) => (),
                    Err(e) => {
                        return Err(e);
                    },
                }
                match apply_spec_vec(&t.both, y) {
                    Ok(()) => (),
                    Err(e) => {
                        return Err(e);
                    },
                }
                Ok(())
            },
        }
    }

    /// Whether the path filter keeps a diff at this path.
    pub fn filter_accept(&self, path: &KeyPath) -> (r: bool)
        ensures
            r == spec_filter_accept(self@, path@),
    {
        match &self.filter {
            None => true,
            Some(f) => match &f.path {
                None => true,
                Some(pf) => pf.accept(path),
            },
        }
    }

    /// Whether the document filter keeps this document.
    pub fn accept_document(&self, y: &Node) -> (r: bool)
        ensures
            r == spec_accept_document(self@, y@),
    {
        match &self.filter {
            None => true,
            Some(f) => match &f.document {
                None => true,
                Some(df) => df.accept(y),
            },
        }
    }
}

} // verus!
