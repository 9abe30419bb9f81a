//! The style cascade: a theme's rules are matched against a node and its
//! ancestors, and the properties of the matching rules are merged in order
//! of importance, specificity and position.
//!
//! Numeric properties are of the caller's numeric type `N` (the renderer
//! uses `f64`); the cascade only moves them.

use vstd::prelude::*;
use crate::ast::element::ShapeKind;
use crate::text::{chars_of, str_eq, string_from_range, trim_bounds, trim_text};
use crate::textmap::TextMap;

verus! {

/// `serde_json::Value`, the value of a custom style property: carried
/// through the cascade without being looked into.
#[verifier::external_type_specification]
#[verifier::external_body]
pub struct ExJsonValue(serde_json::Value);

/// What the cascade sees of a node: its identifier, shape and tags.
#[derive(Clone)]
pub struct NodeView<'a> {
    pub id: &'a str,
    pub kind: &'a ShapeKind,
    pub tags: &'a [String],
}

/// Style variables and rules.
pub struct Theme<N> {
    pub variables: TextMap<String>,
    pub rules: Vec<StyleRule<N>>,
}

/// A rule: it applies where any of its selectors matches and its pseudo
/// state is the one asked for.
pub struct StyleRule<N> {
    pub selectors: Vec<StyleSelector>,
    pub properties: StyleProperties<N>,
    pub pseudo: Option<String>,
    pub important: bool,
}

/// Style properties, each of them optional.
pub struct StyleProperties<N> {
    pub fill: Option<String>,
    pub stroke: Option<String>,
    pub stroke_width: Option<N>,
    pub opacity: Option<N>,
    pub shadow: Option<bool>,
    pub corner_radius: Option<N>,
    pub text_color: Option<String>,
    pub font_size: Option<N>,
    pub font_weight: Option<String>,
    pub font_style: Option<String>,
    pub dash_pattern: Option<String>,
    pub start_arrow: Option<String>,
    pub end_arrow: Option<String>,
    pub custom: TextMap<serde_json::Value>,
}

/// What a selector picks out.
pub enum StyleSelector {
    Id { value: String },
    Class { value: String },
    Type { shape: ShapeKind },
    Connection,
    Descendant { ancestor: Box<StyleSelector>, descendant: Box<StyleSelector> },
    Child { parent: Box<StyleSelector>, child: Box<StyleSelector> },
}

/// A node with its ancestors (nearest first) and the pseudo state asked for.
pub struct ResolutionContext<'a> {
    pub node: &'a NodeView<'a>,
    pub parent_chain: &'a [&'a NodeView<'a>],
    pub pseudo: Option<&'a str>,
}

/// Applies a theme's rules to nodes.
pub struct StyleResolver<'a, N> {
    theme: &'a Theme<N>,
}

/// Whether `node`, whose ancestors are `chain` (nearest first), is picked
/// out by `sel`: by identifier, by tag, by shape; never as a connection; as
/// a descendant when it matches and some ancestor matches with the
/// ancestors above it; as a child when it matches and its parent matches.
pub open spec fn selector_matches<'a>(sel: StyleSelector, node: NodeView<'a>, chain: Seq<&'a NodeView<'a>>) -> bool
    decreases sel, 0nat, 0nat,
{
    match sel {
        StyleSelector::Id { value } => node.id@ == value@,
        StyleSelector::Class { value } => exists|i: int| 0 <= i < node.tags@.len() && #[trigger] node.tags@[i]@ == value@,
        StyleSelector::Type { shape } => *node.kind == shape,
        StyleSelector::Connection => false,
        StyleSelector::Descendant { ancestor, descendant } => selector_matches(*descendant, node, chain)
            && some_ancestor_matches(*ancestor, chain),
        StyleSelector::Child { parent, child } => selector_matches(*child, node, chain) && chain.len() > 0
            && selector_matches(*parent, *chain[0], chain.skip(1)),
    }
}

/// Whether some ancestor in `chain` (nearest first) is picked out by `sel`,
/// with the ancestors above it.
pub open spec fn some_ancestor_matches<'a>(sel: StyleSelector, chain: Seq<&'a NodeView<'a>>) -> bool
    decreases sel, 1nat, chain.len(),
{
    if chain.len() == 0 {
        false
    } else {
        selector_matches(sel, *chain[0], chain.skip(1)) || some_ancestor_matches(sel, chain.skip(1))
    }
}

/// The weight of one selector: identifiers 100, classes 10, anything else 1.
pub open spec fn selector_weight(sel: StyleSelector) -> nat {
    match sel {
        StyleSelector::Id { .. } => 100,
        StyleSelector::Class { .. } => 10,
        _ => 1,
    }
}

/// The specificity of a list of selectors: the sum of their weights.
pub open spec fn specificity(sels: Seq<StyleSelector>) -> nat
    decreases sels.len(),
{
    if sels.len() == 0 {
        0
    } else {
        specificity(sels.drop_last()) + selector_weight(sels.last())
    }
}

/// A `var(name)` reference resolved against the theme's variables; any
/// other text, or a name with no variable, stays as it is.
pub open spec fn var_resolved(s: Seq<char>, vars: Map<Seq<char>, String>) -> Seq<char> {
    if s.len() >= 5 && s.take(4) == seq!['v', 'a', 'r', '('] && s.last() == ')' {
        let key = trim_text(s.subrange(4, s.len() - 1));
        if vars.contains_key(key) {
            vars[key]@
        } else {
            s
        }
    } else {
        s
    }
}

proof fn lemma_specificity_bound(sels: Seq<StyleSelector>)
    ensures
        specificity(sels) <= 100 * sels.len(),
    decreases sels.len(),
{
    if sels.len() > 0 {
        lemma_specificity_bound(sels.drop_last());
    }
}

/// Whether a rule's pseudo state is the one asked for.
pub open spec fn pseudo_matches<N>(rule: StyleRule<N>, pseudo: Option<&str>) -> bool {
    match (rule.pseudo, pseudo) {
        (None, None) => true,
        (Some(a), Some(b)) => a@ == b@,
        _ => false,
    }
}

/// Whether a rule applies to `node` with ancestors `chain`: its pseudo state
/// is the one asked for and one of its selectors picks the node out.
pub open spec fn rule_applies<'a, N>(rule: StyleRule<N>, node: NodeView<'a>, chain: Seq<&'a NodeView<'a>>, pseudo: Option<&str>) -> bool {
    pseudo_matches(rule, pseudo) && exists|s: int| 0 <= s < rule.selectors@.len() && #[trigger] selector_matches(rule.selectors@[s], node, chain)
}

/// The cascade order of rule `i`: importance first, then specificity, then
/// position in the theme.
pub open spec fn cascade_key<N>(rules: Seq<StyleRule<N>>, i: int) -> (bool, nat, int) {
    (rules[i].important, specificity(rules[i].selectors@), i)
}

/// Strict order of cascade keys (`false` before `true`).
pub open spec fn key_before(a: (bool, nat, int), b: (bool, nat, int)) -> bool {
    (!a.0 && b.0) || (a.0 == b.0 && (a.1 < b.1 || (a.1 == b.1 && a.2 < b.2)))
}

/// The properties that the cascade carries over from rule to rule.
pub enum Property {
    Fill,
    Stroke,
    StrokeWidth,
    Opacity,
    FontSize,
}

/// Whether `q` sets property `p`.
pub open spec fn sets<N>(q: StyleProperties<N>, p: Property) -> bool {
    match p {
        Property::Fill => q.fill is Some,
        Property::Stroke => q.stroke is Some,
        Property::StrokeWidth => q.stroke_width is Some,
        Property::Opacity => q.opacity is Some,
        Property::FontSize => q.font_size is Some,
    }
}

/// The text value of property `p` (fill or stroke) in `q`.
pub open spec fn text_of<N>(q: StyleProperties<N>, p: Property) -> Option<String> {
    match p {
        Property::Fill => q.fill,
        _ => q.stroke,
    }
}

/// The numeric value of property `p` (stroke width, opacity or font size)
/// in `q`.
pub open spec fn number_of<N>(q: StyleProperties<N>, p: Property) -> Option<N> {
    match p {
        Property::StrokeWidth => q.stroke_width,
        Property::Opacity => q.opacity,
        _ => q.font_size,
    }
}

/// Rule `w` is the one whose value wins for a property: it applies, sets
/// the property, and comes after every other applying rule that sets it.
pub open spec fn wins<'a, N>(
    rules: Seq<StyleRule<N>>,
    node: NodeView<'a>,
    chain: Seq<&'a NodeView<'a>>,
    pseudo: Option<&str>,
    prop: Property,
    w: int,
) -> bool {
    &&& 0 <= w < rules.len()
    &&& rule_applies(rules[w], node, chain, pseudo)
    &&& sets(rules[w].properties, prop)
    &&& forall|j: int| 0 <= j < rules.len() && j != w && rule_applies(#[trigger] rules[j], node, chain, pseudo) && sets(rules[j].properties, prop)
        ==> key_before(cascade_key(rules, j), cascade_key(rules, w))
}

/// No applying rule sets the property.
pub open spec fn none_sets<'a, N>(
    rules: Seq<StyleRule<N>>,
    node: NodeView<'a>,
    chain: Seq<&'a NodeView<'a>>,
    pseudo: Option<&str>,
    prop: Property,
) -> bool {
    forall|j: int| 0 <= j < rules.len() && rule_applies(#[trigger] rules[j], node, chain, pseudo) ==> !sets(rules[j].properties, prop)
}

/// `after` is `before` with `other` merged over it: fill and stroke (with
/// `var(..)` references resolved), stroke width, opacity and font size are
/// taken from `other` where it has them; nothing else changes.
pub open spec fn merged<N>(before: StyleProperties<N>, other: StyleProperties<N>, vars: Map<Seq<char>, String>, after: StyleProperties<N>) -> bool {
    &&& match other.fill {
        Some(v) => after.fill matches Some(f) && f@ == var_resolved(v@, vars),
        None => after.fill == before.fill,
    }
    &&& match other.stroke {
        Some(v) => after.stroke matches Some(f) && f@ == var_resolved(v@, vars),
        None => after.stroke == before.stroke,
    }
    &&& after.stroke_width == if other.stroke_width is Some { other.stroke_width } else { before.stroke_width }
    &&& after.opacity == if other.opacity is Some { other.opacity } else { before.opacity }
    &&& after.font_size == if other.font_size is Some { other.font_size } else { before.font_size }
    &&& after.shadow == before.shadow
    &&& after.corner_radius == before.corner_radius
    &&& after.text_color == before.text_color
    &&& after.font_weight == before.font_weight
    &&& after.font_style == before.font_style
    &&& after.dash_pattern == before.dash_pattern
    &&& after.start_arrow == before.start_arrow
    &&& after.end_arrow == before.end_arrow
    &&& after.custom == before.custom
}

/// Resolves a `var(name)` reference against the theme's variables.
pub fn resolve_var<N>(s: String, theme: &Theme<N>) -> (r: String)
    ensures
        r@ == var_resolved(s@, theme.variables@),
{
    let cs = chars_of(s.as_str());
    let n = cs.len();
    if n >= 4 && cs[0] == 'v' && cs[1] == 'a' && cs[2] == 'r' && cs[3] == '(' && cs[n - 1] == ')' {
        proof {
            assert(cs@.take(4) =~= seq!['v', 'a', 'r', '(']);
        }
        let (a, e) = trim_bounds(cs.as_slice(), 4, n - 1);
        let key = string_from_range(cs.as_slice(), a, e);
        match theme.variables.get(key.as_str()) {
            Some(v) => v.clone(),
            None => s,
        }
    } else {
        proof {
            if n >= 5 && cs@.take(4) == seq!['v', 'a', 'r', '('] {
                assert(cs@.take(4)[0] == 'v' && cs@.take(4)[1] == 'a' && cs@.take(4)[2] == 'r' && cs@.take(4)[3] == '(');
            }
        }
        s
    }
}

impl<N> StyleProperties<N> {
    /// Properties with nothing set.
    pub fn empty() -> (p: Self)
        ensures
            p.fill is None && p.stroke is None && p.stroke_width is None && p.opacity is None,
            p.shadow is None && p.corner_radius is None && p.text_color is None && p.font_size is None,
            p.font_weight is None && p.font_style is None && p.dash_pattern is None,
            p.start_arrow is None && p.end_arrow is None,
            p.custom@ == Map::<Seq<char>, serde_json::Value>::empty(),
    {
        StyleProperties {
            fill: None,
            stroke: None,
            stroke_width: None,
            opacity: None,
            shadow: None,
            corner_radius: None,
            text_color: None,
            font_size: None,
            font_weight: None,
            font_style: None,
            dash_pattern: None,
            start_arrow: None,
            end_arrow: None,
            custom: TextMap::new(),
        }
    }

    /// Merges `other` over these properties: fill and stroke (with
    /// `var(..)` references resolved), stroke width, opacity and font size
    /// are taken from `other` where it has them.
    pub fn merge(&mut self, other: StyleProperties<N>, theme: &Theme<N>)
        ensures
            merged(*old(self), other, theme.variables@, *final(self)),
    {
        if let Some(v) = other.fill {
            self.fill = Some(resolve_var(v, theme));
        }
        if let Some(v) = other.stroke {
            self.stroke = Some(resolve_var(v, theme));
        }
        if let Some(v) = other.stroke_width {
            self.stroke_width = Some(v);
        }
        if let Some(v) = other.opacity {
            self.opacity = Some(v);
        }
        if let Some(v) = other.font_size {
            self.font_size = Some(v);
        }
    }
}

impl<N> Default for StyleProperties<N> {
    fn default() -> (p: Self)
        ensures
            p.fill is None && p.stroke is None && p.stroke_width is None && p.opacity is None,
            p.shadow is None && p.corner_radius is None && p.text_color is None && p.font_size is None,
            p.font_weight is None && p.font_style is None && p.dash_pattern is None,
            p.start_arrow is None && p.end_arrow is None,
            p.custom@ == Map::<Seq<char>, serde_json::Value>::empty(),
    {
        Self::empty()
    }
}

/// The cascade key of a matched rule as the resolver stores it.
pub open spec fn entry_key(t: (bool, u32, usize)) -> (bool, nat, int) {
    (t.0, t.1 as nat, t.2 as int)
}

/// Position of the last of the first `k` entries whose rule sets the
/// property, or -1.
pub open spec fn last_setter<N>(rules: Seq<StyleRule<N>>, order: Seq<(bool, u32, usize)>, k: int, prop: Property) -> int
    decreases k,
{
    if k <= 0 {
        -1
    } else if sets(rules[order[k - 1].2 as int].properties, prop) {
        k - 1
    } else {
        last_setter(rules, order, k - 1, prop)
    }
}

proof fn lemma_last_setter<N>(rules: Seq<StyleRule<N>>, order: Seq<(bool, u32, usize)>, k: int, prop: Property)
    requires
        0 <= k <= order.len(),
    ensures
        -1 <= last_setter(rules, order, k, prop) < k,
        last_setter(rules, order, k, prop) >= 0 ==> sets(rules[order[last_setter(rules, order, k, prop)].2 as int].properties, prop),
        forall|j: int| last_setter(rules, order, k, prop) < j < k ==> !sets(#[trigger] rules[order[j].2 as int].properties, prop),
    decreases k,
{
    if k > 0 {
        lemma_last_setter(rules, order, k - 1, prop);
    }
}

proof fn lemma_key_before_trans(a: (bool, nat, int), b: (bool, nat, int), c: (bool, nat, int))
    requires
        key_before(a, b),
        key_before(b, c),
    ensures
        key_before(a, c),
{
}

/// Insertion into a list kept strictly increasing in cascade order.
fn insert_sorted(v: &mut Vec<(bool, u32, usize)>, x: (bool, u32, usize))
    requires
        forall|i: int, j: int| 0 <= i < j < old(v)@.len() ==> key_before(entry_key(old(v)@[i]), entry_key(old(v)@[j])),
        forall|i: int| 0 <= i < old(v)@.len() ==> (#[trigger] old(v)@[i]) != x,
    ensures
        final(v)@.len() == old(v)@.len() + 1,
        forall|i: int, j: int| 0 <= i < j < final(v)@.len() ==> key_before(entry_key(final(v)@[i]), entry_key(final(v)@[j])),
        forall|y: (bool, u32, usize)| final(v)@.contains(y) <==> old(v)@.contains(y) || y == x,
{
    let mut pos: usize = 0;
    while pos < v.len()
        invariant
            pos <= v@.len(),
            v@ == old(v)@,
            forall|i: int| 0 <= i < v@.len() ==> (#[trigger] v@[i]) != x,
            forall|i: int| 0 <= i < pos ==> key_before(entry_key(#[trigger] v@[i]), entry_key(x)),
        ensures
            pos <= v@.len(),
            v@ == old(v)@,
            forall|i: int| 0 <= i < pos ==> key_before(entry_key(#[trigger] v@[i]), entry_key(x)),
            pos < v@.len() ==> key_before(entry_key(x), entry_key(v@[pos as int])),
        decreases v@.len() - pos,
    {
        let y = v[pos];
        let before = (!x.0 && y.0) || (x.0 == y.0 && (x.1 < y.1 || (x.1 == y.1 && x.2 < y.2)));
        if before {
            break;
        }
        proof {
            assert(y != x);
            assert(key_before(entry_key(y), entry_key(x)));
        }
        pos = pos + 1;
    }
    let ghost old_v = v@;
    v.insert(pos, x);
    proof {
        let nv = v@;
        assert(nv == old_v.insert(pos as int, x));
        assert forall|i: int, j: int| 0 <= i < j < nv.len() implies key_before(entry_key(nv[i]), entry_key(nv[j])) by {
            if j < pos {
                assert(nv[i] == old_v[i] && nv[j] == old_v[j]);
            } else if j == pos {
                assert(nv[i] == old_v[i]);
            } else if i == pos {
                assert(nv[j] == old_v[j - 1]);
                if j - 1 > pos {
                    lemma_key_before_trans(entry_key(x), entry_key(old_v[pos as int]), entry_key(old_v[j - 1]));
                }
            } else if i < pos {
                assert(nv[i] == old_v[i] && nv[j] == old_v[j - 1]);
            } else {
                assert(nv[i] == old_v[i - 1] && nv[j] == old_v[j - 1]);
            }
        }
        assert forall|y: (bool, u32, usize)| nv.contains(y) <==> old_v.contains(y) || y == x by {
            if nv.contains(y) {
                let i = choose|i: int| 0 <= i < nv.len() && nv[i] == y;
                if i < pos {
                    assert(old_v[i] == y);
                } else if i > pos {
                    assert(old_v[i - 1] == y);
                }
            }
            if old_v.contains(y) {
                let i = choose|i: int| 0 <= i < old_v.len() && old_v[i] == y;
                if i < pos {
                    assert(nv[i] == y);
                } else {
                    assert(nv[i + 1] == y);
                }
            }
            if y == x {
                assert(nv[pos as int] == x);
            }
        }
    }
}

impl<'a, N> StyleResolver<'a, N> {
    /// A resolver for a theme.
    pub fn new(theme: &'a Theme<N>) -> (r: Self)
        ensures
            r.theme() == theme,
    {
        Self { theme }
    }

    /// The theme whose rules are applied.
    pub closed spec fn theme(self) -> &'a Theme<N> {
        self.theme
    }

    fn tags_contain(tags: &[String], value: &String) -> (b: bool)
        ensures
            b == exists|i: int| 0 <= i < tags@.len() && #[trigger] tags@[i]@ == value@,
    {
        let mut i: usize = 0;
        while i < tags.len()
            invariant
                i <= tags@.len(),
                forall|j: int| 0 <= j < i ==> tags@[j]@ != value@,
            decreases tags@.len() - i,
        {
            if str_eq(tags[i].as_str(), value.as_str()) {
                return true;
            }
            i = i + 1;
        }
        false
    }

    /// Whether `selector` picks out `node` with ancestors `chain[from..]`.
    #[verifier::loop_isolation(false)]
    fn matches(&self, selector: &StyleSelector, node: &NodeView<'a>, chain: &[&NodeView<'a>], from: usize) -> (b: bool)
        requires
            from <= chain@.len(),
        ensures
            b == selector_matches(*selector, *node, chain@.skip(from as int)),
        decreases selector,
    {
        match selector {
            StyleSelector::Id { value } => str_eq(node.id, value.as_str()),
            StyleSelector::Class { value } => Self::tags_contain(node.tags, value),
            StyleSelector::Type { shape } => *node.kind == *shape,
            StyleSelector::Connection => false,
            StyleSelector::Descendant { ancestor, descendant } => {
                if !self.matches(descendant, node, chain, from) {
                    return false;
                }
                let mut i = from;
                while i < chain.len()
                    invariant
                        from <= i <= chain@.len(),
                        some_ancestor_matches(**ancestor, chain@.skip(from as int))
                            == some_ancestor_matches(**ancestor, chain@.skip(i as int)),
                    decreases chain@.len() - i,
                {
                    let found = self.matches(ancestor, chain[i], chain, i + 1);
                    proof {
                        assert(chain@.skip(i as int)[0] == chain@[i as int]);
                        assert(chain@.skip(i as int).skip(1) =~= chain@.skip(i + 1));
                    }
                    if found {
                        return true;
                    }
                    i = i + 1;
                }
                false
            },
            StyleSelector::Child { parent, child } => {
                if !self.matches(child, node, chain, from) {
                    return false;
                }
                if from < chain.len() {
                    proof {
                        assert(chain@.skip(from as int)[0] == chain@[from as int]);
                        assert(chain@.skip(from as int).skip(1) =~= chain@.skip(from + 1));
                    }
                    self.matches(parent, chain[from], chain, from + 1)
                } else {
                    false
                }
            },
        }
    }

    fn calculate_specificity(&self, selectors: &[StyleSelector]) -> (score: u32)
        requires
            selectors@.len() <= 42_000_000,
        ensures
            score == specificity(selectors@),
    {
        let mut score: u32 = 0;
        let mut i: usize = 0;
        while i < selectors.len()
            invariant
                i <= selectors@.len() <= 42_000_000,
                score == specificity(selectors@.take(i as int)),
            decreases selectors@.len() - i,
        {
            proof {
                assert(selectors@.take(i + 1).drop_last() == selectors@.take(i as int));
                lemma_specificity_bound(selectors@.take(i as int));
            }
            let w: u32 = match &selectors[i] {
                StyleSelector::Id { .. } => 100,
                StyleSelector::Class { .. } => 10,
                _ => 1,
            };
            score = score + w;
            i = i + 1;
        }
        proof {
            assert(selectors@.take(selectors@.len() as int) == selectors@);
        }
        score
    }
}

/// The winning rule for a property, as the resolver finds it: the last
/// entry of the cascade-ordered list of applying rules that sets it.
proof fn lemma_winner<'a, N>(
    rules: Seq<StyleRule<N>>,
    node: NodeView<'a>,
    chain: Seq<&'a NodeView<'a>>,
    pseudo: Option<&str>,
    order: Seq<(bool, u32, usize)>,
    prop: Property,
)
    requires
        forall|i: int, j: int| 0 <= i < j < order.len() ==> key_before(entry_key(order[i]), entry_key(order[j])),
        forall|i: int| 0 <= i < order.len() ==> (#[trigger] order[i]).2 < rules.len() && order[i] == (
            rules[order[i].2 as int].important,
            specificity(rules[order[i].2 as int].selectors@) as u32,
            order[i].2,
        ) && specificity(rules[order[i].2 as int].selectors@) == order[i].1 && rule_applies(rules[order[i].2 as int], node, chain, pseudo),
        forall|j: int| 0 <= j < rules.len() && rule_applies(#[trigger] rules[j], node, chain, pseudo)
            ==> exists|p: int| 0 <= p < order.len() && #[trigger] order[p].2 == j,
    ensures
        last_setter(rules, order, order.len() as int, prop) >= 0 ==> wins(
            rules,
            node,
            chain,
            pseudo,
            prop,
            order[last_setter(rules, order, order.len() as int, prop)].2 as int,
        ),
        last_setter(rules, order, order.len() as int, prop) < 0 ==> none_sets(rules, node, chain, pseudo, prop),
{
    let n = order.len() as int;
    lemma_last_setter(rules, order, n, prop);
    let ls = last_setter(rules, order, n, prop);
    if ls >= 0 {
        let w = order[ls].2 as int;
        assert forall|j: int| 0 <= j < rules.len() && j != w && rule_applies(#[trigger] rules[j], node, chain, pseudo) && sets(rules[j].properties, prop)
            implies key_before(cascade_key(rules, j), cascade_key(rules, w)) by {
            let p = choose|p: int| 0 <= p < order.len() && #[trigger] order[p].2 == j;
            if p > ls {
                assert(!sets(rules[order[p].2 as int].properties, prop));
            }
            assert(p != ls);
            assert(key_before(entry_key(order[p]), entry_key(order[ls])));
        }
    } else {
        assert forall|j: int| 0 <= j < rules.len() && rule_applies(#[trigger] rules[j], node, chain, pseudo)
            implies !sets(rules[j].properties, prop) by {
            let p = choose|p: int| 0 <= p < order.len() && #[trigger] order[p].2 == j;
            assert(!sets(rules[order[p].2 as int].properties, prop));
        }
    }
}

/// A copy of the properties that merging reads: fill, stroke, stroke width,
/// opacity and font size.
fn merge_source<N: Copy>(p: &StyleProperties<N>) -> (q: StyleProperties<N>)
    ensures
        q.fill == p.fill,
        q.stroke == p.stroke,
        q.stroke_width == p.stroke_width,
        q.opacity == p.opacity,
        q.font_size == p.font_size,
{
    let mut q = StyleProperties::empty();
    q.fill = p.fill.clone();
    q.stroke = p.stroke.clone();
    q.stroke_width = p.stroke_width;
    q.opacity = p.opacity;
    q.font_size = p.font_size;
    q
}

/// The value a resolved text property has: that of the winning rule, with
/// `var(..)` resolved, or none where no applying rule sets it.
pub open spec fn text_resolved<'a, N>(
    value: Option<String>,
    theme: Theme<N>,
    node: NodeView<'a>,
    chain: Seq<&'a NodeView<'a>>,
    pseudo: Option<&str>,
    prop: Property,
) -> bool {
    match value {
        Some(f) => exists|w: int| #[trigger] wins(theme.rules@, node, chain, pseudo, prop, w)
            && f@ == var_resolved(text_of(theme.rules@[w].properties, prop)->0@, theme.variables@),
        None => none_sets(theme.rules@, node, chain, pseudo, prop),
    }
}

/// The value a resolved numeric property has: that of the winning rule, or
/// none where no applying rule sets it.
pub open spec fn number_resolved<'a, N>(
    value: Option<N>,
    theme: Theme<N>,
    node: NodeView<'a>,
    chain: Seq<&'a NodeView<'a>>,
    pseudo: Option<&str>,
    prop: Property,
) -> bool {
    match value {
        Some(x) => exists|w: int| #[trigger] wins(theme.rules@, node, chain, pseudo, prop, w)
            && value == number_of(theme.rules@[w].properties, prop),
        None => none_sets(theme.rules@, node, chain, pseudo, prop),
    }
}

impl<'a, N: Copy> StyleResolver<'a, N> {
    fn rule_applies_to(&self, rule: &StyleRule<N>, node: &NodeView<'a>, chain: &[&NodeView<'a>], pseudo: Option<&str>) -> (b: bool)
        ensures
            b == rule_applies(*rule, *node, chain@, pseudo),
    {
        let same_pseudo = match (&rule.pseudo, pseudo) {
            (None, None) => true,
            (Some(a), Some(b)) => str_eq(a.as_str(), b),
            _ => false,
        };
        if !same_pseudo {
            return false;
        }
        proof {
            assert(chain@.skip(0) == chain@);
        }
        let mut i: usize = 0;
        while i < rule.selectors.len()
            invariant
                i <= rule.selectors@.len(),
                pseudo_matches(*rule, pseudo),
                forall|s: int| 0 <= s < i ==> !selector_matches(#[trigger] rule.selectors@[s], *node, chain@),
            decreases rule.selectors@.len() - i,
        {
            proof {
                assert(chain@.skip(0) == chain@);
            }
            if self.matches(&rule.selectors[i], node, chain, 0) {
                proof {
                    assert(selector_matches(rule.selectors@[i as int], *node, chain@));
                }
                return true;
            }
            i = i + 1;
        }
        false
    }

    /// The properties that the theme gives a node with ancestors
    /// `parent_chain` (nearest first) in the pseudo state `pseudo`: the
    /// applying rules are merged in cascade order (normal before important,
    /// then by specificity, then by position), so each property comes from
    /// the last applying rule in that order that sets it.
    pub fn resolve(&self, node: &NodeView<'a>, parent_chain: &[&NodeView<'a>], pseudo: Option<&str>) -> (p: StyleProperties<N>)
        requires
            forall|i: int| 0 <= i < self.theme().rules@.len() ==> (#[trigger] self.theme().rules@[i]).selectors@.len() <= 42_000_000,
        ensures
            text_resolved(p.fill, *self.theme(), *node, parent_chain@, pseudo, Property::Fill),
            text_resolved(p.stroke, *self.theme(), *node, parent_chain@, pseudo, Property::Stroke),
            number_resolved(p.stroke_width, *self.theme(), *node, parent_chain@, pseudo, Property::StrokeWidth),
            number_resolved(p.opacity, *self.theme(), *node, parent_chain@, pseudo, Property::Opacity),
            number_resolved(p.font_size, *self.theme(), *node, parent_chain@, pseudo, Property::FontSize),
            p.shadow is None && p.corner_radius is None && p.text_color is None,
            p.font_weight is None && p.font_style is None && p.dash_pattern is None,
            p.start_arrow is None && p.end_arrow is None,
            p.custom@ == Map::<Seq<char>, serde_json::Value>::empty(),
    {
        let rules = &self.theme.rules;
        let ghost rs = rules@;
        proof {
            assert(rs == self.theme().rules@);
        }
        let ghost chain = parent_chain@;
        // Matched rules, kept in cascade order.
        let mut matched: Vec<(bool, u32, usize)> = Vec::new();
        let mut i: usize = 0;
        while i < rules.len()
            invariant
                i <= rs.len(),
                rs == rules@,
                chain == parent_chain@,
                forall|r: int| 0 <= r < rs.len() ==> (#[trigger] rs[r]).selectors@.len() <= 42_000_000,
                forall|a: int, b: int| 0 <= a < b < matched@.len() ==> key_before(entry_key(matched@[a]), entry_key(matched@[b])),
                forall|a: int| 0 <= a < matched@.len() ==> (#[trigger] matched@[a]).2 < i && matched@[a] == (
                    rs[matched@[a].2 as int].important,
                    specificity(rs[matched@[a].2 as int].selectors@) as u32,
                    matched@[a].2,
                ) && specificity(rs[matched@[a].2 as int].selectors@) == matched@[a].1
                    && rule_applies(rs[matched@[a].2 as int], *node, chain, pseudo),
                forall|j: int| 0 <= j < i && rule_applies(#[trigger] rs[j], *node, chain, pseudo)
                    ==> exists|p: int| 0 <= p < matched@.len() && #[trigger] matched@[p].2 == j,
            decreases rs.len() - i,
        {
            let rule = &rules[i];
            assert(*rule == rs[i as int]);
            if self.rule_applies_to(rule, node, parent_chain, pseudo) {
                let spec_score = self.calculate_specificity(rule.selectors.as_slice());
                let entry = (rule.important, spec_score, i);
                let ghost before = matched@;
                insert_sorted(&mut matched, entry);
                proof {
                    assert(spec_score == specificity(rs[i as int].selectors@));
                    assert(rule_applies(rs[i as int], *node, chain, pseudo));
                    assert forall|a: int| 0 <= a < matched@.len() implies (#[trigger] matched@[a]).2 < i + 1 && matched@[a] == (
                        rs[matched@[a].2 as int].important,
                        specificity(rs[matched@[a].2 as int].selectors@) as u32,
                        matched@[a].2,
                    ) && specificity(rs[matched@[a].2 as int].selectors@) == matched@[a].1
                        && rule_applies(rs[matched@[a].2 as int], *node, chain, pseudo) by {
                        assert(matched@.contains(matched@[a]));
                        if matched@[a] != entry {
                            assert(before.contains(matched@[a]));
                            let b = choose|b: int| 0 <= b < before.len() && before[b] == matched@[a];
                            assert(before[b].2 < i);
                        }
                    }
                    assert forall|j: int| 0 <= j < i + 1 && rule_applies(#[trigger] rs[j], *node, chain, pseudo)
                        implies exists|p: int| 0 <= p < matched@.len() && #[trigger] matched@[p].2 == j by {
                        if j < i {
                            let p = choose|p: int| 0 <= p < before.len() && #[trigger] before[p].2 == j;
                            assert(before.contains(before[p]));
                            assert(matched@.contains(before[p]));
                            let q = choose|q: int| 0 <= q < matched@.len() && matched@[q] == before[p];
                            assert(matched@[q].2 == j);
                        } else {
                            assert(matched@.contains(entry));
                            let q = choose|q: int| 0 <= q < matched@.len() && matched@[q] == entry;
                            assert(matched@[q].2 == j);
                        }
                    }
                }
            }
            i = i + 1;
        }
        // Merge in cascade order.
        let mut final_props: StyleProperties<N> = StyleProperties::empty();
        let mut k: usize = 0;
        while k < matched.len()
            invariant
                k <= matched@.len(),
                rs == rules@,
                chain == parent_chain@,
                forall|a: int| 0 <= a < matched@.len() ==> (#[trigger] matched@[a]).2 < rs.len(),
                ({
                    let ls = last_setter(rs, matched@, k as int, Property::Fill);
                    if ls >= 0 {
                        final_props.fill matches Some(f) && f@ == var_resolved(rs[matched@[ls].2 as int].properties.fill->0@, self.theme().variables@)
                    } else {
                        final_props.fill is None
                    }
                }),
                ({
                    let ls = last_setter(rs, matched@, k as int, Property::Stroke);
                    if ls >= 0 {
                        final_props.stroke matches Some(f) && f@ == var_resolved(rs[matched@[ls].2 as int].properties.stroke->0@, self.theme().variables@)
                    } else {
                        final_props.stroke is None
                    }
                }),
                ({
                    let ls = last_setter(rs, matched@, k as int, Property::StrokeWidth);
                    final_props.stroke_width == if ls >= 0 { rs[matched@[ls].2 as int].properties.stroke_width } else { None }
                }),
                ({
                    let ls = last_setter(rs, matched@, k as int, Property::Opacity);
                    final_props.opacity == if ls >= 0 { rs[matched@[ls].2 as int].properties.opacity } else { None }
                }),
                ({
                    let ls = last_setter(rs, matched@, k as int, Property::FontSize);
                    final_props.font_size == if ls >= 0 { rs[matched@[ls].2 as int].properties.font_size } else { None }
                }),
                final_props.shadow is None && final_props.corner_radius is None && final_props.text_color is None,
                final_props.font_weight is None && final_props.font_style is None && final_props.dash_pattern is None,
                final_props.start_arrow is None && final_props.end_arrow is None,
                final_props.custom@ == Map::<Seq<char>, serde_json::Value>::empty(),
            decreases matched@.len() - k,
        {
            let idx = matched[k].2;
            let source = merge_source(&rules[idx].properties);
            final_props.merge(source, self.theme);
            k = k + 1;
        }
        proof {
            lemma_winner(rs, *node, chain, pseudo, matched@, Property::Fill);
            lemma_winner(rs, *node, chain, pseudo, matched@, Property::Stroke);
            lemma_winner(rs, *node, chain, pseudo, matched@, Property::StrokeWidth);
            lemma_winner(rs, *node, chain, pseudo, matched@, Property::Opacity);
            lemma_winner(rs, *node, chain, pseudo, matched@, Property::FontSize);
            let n = matched@.len() as int;
            let ls = last_setter(rs, matched@, n, Property::Fill);
            if ls >= 0 {
                assert(wins(rs, *node, chain, pseudo, Property::Fill, matched@[ls].2 as int));
            }
            let ls = last_setter(rs, matched@, n, Property::Stroke);
            if ls >= 0 {
                assert(wins(rs, *node, chain, pseudo, Property::Stroke, matched@[ls].2 as int));
            }
            let ls = last_setter(rs, matched@, n, Property::StrokeWidth);
            if ls >= 0 {
                assert(wins(rs, *node, chain, pseudo, Property::StrokeWidth, matched@[ls].2 as int));
                lemma_last_setter(rs, matched@, n, Property::StrokeWidth);
            }
            let ls = last_setter(rs, matched@, n, Property::Opacity);
            if ls >= 0 {
                assert(wins(rs, *node, chain, pseudo, Property::Opacity, matched@[ls].2 as int));
                lemma_last_setter(rs, matched@, n, Property::Opacity);
            }
            let ls = last_setter(rs, matched@, n, Property::FontSize);
            if ls >= 0 {
                assert(wins(rs, *node, chain, pseudo, Property::FontSize, matched@[ls].2 as int));
                lemma_last_setter(rs, matched@, n, Property::FontSize);
            }
        }
        final_props
    }
}


/// Selector weights are ordered: an identifier outweighs a class, which
/// outweighs any other selector; they weigh 100, 10 and 1.
pub proof fn lemma_selector_weight_order(id: StyleSelector, class: StyleSelector, other: StyleSelector)
    requires
        id is Id,
        class is Class,
        !(other is Id) && !(other is Class),
    ensures
        selector_weight(other) < selector_weight(class) < selector_weight(id),
        selector_weight(id) == 100 && selector_weight(class) == 10 && selector_weight(other) == 1,
{
}

/// The specificity of a single selector is its weight.
pub proof fn lemma_single_specificity(sel: StyleSelector)
    ensures
        specificity(seq![sel]) == selector_weight(sel),
{
    assert(seq![sel].drop_last() =~= Seq::<StyleSelector>::empty());
    assert(specificity(Seq::<StyleSelector>::empty()) == 0);
}

/// Of two rules that both apply to a node and set its fill, neither of them
/// important, one with a single class selector and one with a single type
/// selector, the class rule wins, whichever of the two comes first.
pub proof fn lemma_class_rule_beats_type_rule<'a, N>(
    rules: Seq<StyleRule<N>>,
    node: NodeView<'a>,
    chain: Seq<&'a NodeView<'a>>,
    pseudo: Option<&str>,
    c: int,
    t: int,
)
    requires
        rules.len() == 2,
        (c == 0 && t == 1) || (c == 1 && t == 0),
        rules[c].selectors@.len() == 1 && rules[c].selectors@[0] is Class,
        rules[t].selectors@.len() == 1 && rules[t].selectors@[0] is Type,
        !rules[c].important && !rules[t].important,
        rule_applies(rules[c], node, chain, pseudo) && sets(rules[c].properties, Property::Fill),
        rule_applies(rules[t], node, chain, pseudo) && sets(rules[t].properties, Property::Fill),
    ensures
        wins(rules, node, chain, pseudo, Property::Fill, c),
        forall|w: int| #[trigger] wins(rules, node, chain, pseudo, Property::Fill, w) ==> w == c,
{
    let cs = rules[c].selectors@;
    let ts = rules[t].selectors@;
    assert(cs =~= seq![cs[0]]);
    assert(ts =~= seq![ts[0]]);
    lemma_single_specificity(cs[0]);
    lemma_single_specificity(ts[0]);
    assert(specificity(cs) == 10);
    assert(specificity(ts) == 1);
    assert(key_before(cascade_key(rules, t), cascade_key(rules, c)));
    assert forall|w: int| #[trigger] wins(rules, node, chain, pseudo, Property::Fill, w) implies w == c by {
        if w != c {
            assert(w == t);
            assert(key_before(cascade_key(rules, c), cascade_key(rules, t)));
        }
    }
}

/// With a theme of those two rules, the fill that [`StyleResolver::resolve`]
/// gives a node (a value that its contract ties to the winning rule) is the
/// class rule's fill, with `var(..)` references resolved.
pub proof fn lemma_resolved_fill_is_class_fill<'a, N>(
    fill: Option<String>,
    theme: Theme<N>,
    node: NodeView<'a>,
    chain: Seq<&'a NodeView<'a>>,
    pseudo: Option<&str>,
    c: int,
    t: int,
)
    requires
        theme.rules@.len() == 2,
        (c == 0 && t == 1) || (c == 1 && t == 0),
        theme.rules@[c].selectors@.len() == 1 && theme.rules@[c].selectors@[0] is Class,
        theme.rules@[t].selectors@.len() == 1 && theme.rules@[t].selectors@[0] is Type,
        !theme.rules@[c].important && !theme.rules@[t].important,
        rule_applies(theme.rules@[c], node, chain, pseudo) && theme.rules@[c].properties.fill is Some,
        rule_applies(theme.rules@[t], node, chain, pseudo) && theme.rules@[t].properties.fill is Some,
        text_resolved(fill, theme, node, chain, pseudo, Property::Fill),
    ensures
        fill matches Some(f) && f@ == var_resolved(theme.rules@[c].properties.fill->0@, theme.variables@),
{
    lemma_class_rule_beats_type_rule(theme.rules@, node, chain, pseudo, c, t);
    assert(!none_sets(theme.rules@, node, chain, pseudo, Property::Fill));
}

} // verus!
