//! Where variable values come from.

use vstd::hash_map::StringHashMap;
use vstd::prelude::*;
use vstd::string::*;

verus! {

/// A source of variable values. The engine asks it many times during one
/// interpolation, also while it expands a default, and expects the same
/// answer each time.
pub trait VariableProvider {
    /// The bindings that the provider answers from: names to values.
    spec fn bindings(&self) -> Map<Seq<char>, Seq<char>>;

    /// The value bound to `key`, if there is one.
    fn get_value(&self, key: &str) -> (r: Option<&str>)
        ensures
            match r {
                Some(v) => self.bindings().contains_key(key@) && self.bindings()[key@] == v@,
                None => !self.bindings().contains_key(key@),
            },
    ;
}

/// The bindings held by a map from names to strings.
pub open spec fn string_bindings(m: Map<Seq<char>, String>) -> Map<Seq<char>, Seq<char>> {
    Map::new(|k: Seq<char>| m.contains_key(k), |k: Seq<char>| m[k]@)
}

/// Binding a name in the map binds it in the bindings.
pub proof fn lemma_string_bindings_insert(m: Map<Seq<char>, String>, k: Seq<char>, v: String)
    ensures
        string_bindings(m.insert(k, v)) == string_bindings(m).insert(k, v@),
{
    assert(string_bindings(m.insert(k, v)) =~= string_bindings(m).insert(k, v@));
}

impl VariableProvider for StringHashMap<String> {
    open spec fn bindings(&self) -> Map<Seq<char>, Seq<char>> {
        string_bindings(self@)
    }

    fn get_value(&self, key: &str) -> (r: Option<&str>) {
        match self.get(key) {
            Some(v) => Some(v.as_str()),
            None => None,
        }
    }
}

/// A simple in-memory context.
pub struct SimpleContext {
    vars: StringHashMap<String>,
}

impl SimpleContext {
    /// A context without bindings.
    pub fn new() -> (r: Self)
        ensures
            r.bindings() == Map::<Seq<char>, Seq<char>>::empty(),
    {
        let r = SimpleContext { vars: StringHashMap::new() };
        assert(r.bindings() =~= Map::<Seq<char>, Seq<char>>::empty());
        r
    }

    /// Binds `key` to `value`; an earlier binding of `key` is replaced.
    pub fn insert(&mut self, key: &str, value: &str)
        ensures
            final(self).bindings() == old(self).bindings().insert(key@, value@),
    {
        let k = String::from_str(key);
        let v = String::from_str(value);
        proof {
            lemma_string_bindings_insert(self.vars@, k@, v);
        }
        self.vars.insert(k, v);
    }
}

impl Default for SimpleContext {
    fn default() -> (r: Self)
        ensures
            r.bindings() == Map::<Seq<char>, Seq<char>>::empty(),
    {
        SimpleContext::new()
    }
}

impl VariableProvider for SimpleContext {
    closed spec fn bindings(&self) -> Map<Seq<char>, Seq<char>> {
        string_bindings(self.vars@)
    }

    fn get_value(&self, key: &str) -> (r: Option<&str>) {
        self.vars.get_value(key)
    }
}

/// The bindings of `base` with those of `overlay` laid over them: where both
/// bind a name, the overlay's value counts.
pub open spec fn overlaid(base: Map<Seq<char>, Seq<char>>, overlay: Map<Seq<char>, Seq<char>>) -> Map<
    Seq<char>,
    Seq<char>,
> {
    base.union_prefer_right(overlay)
}

/// A name is looked up in the overlay first, and in the base only where the
/// overlay does not bind it.
pub proof fn lemma_overlay_takes_precedence(
    base: Map<Seq<char>, Seq<char>>,
    overlay: Map<Seq<char>, Seq<char>>,
    name: Seq<char>,
)
    ensures
        overlay.contains_key(name) ==> overlaid(base, overlay).contains_key(name) && overlaid(
            base,
            overlay,
        )[name] == overlay[name],
        !overlay.contains_key(name) ==> (overlaid(base, overlay).contains_key(name)
            <==> base.contains_key(name)),
        !overlay.contains_key(name) && base.contains_key(name) ==> overlaid(base, overlay)[name]
            == base[name],
{
}

/// An overlay without bindings changes nothing.
pub proof fn lemma_empty_overlay(base: Map<Seq<char>, Seq<char>>)
    ensures
        overlaid(base, Map::empty()) == base,
{
    assert(overlaid(base, Map::empty()) =~= base);
}

/// A provider that answers from `overlay` first and from `base` otherwise.
pub struct OverlayProvider<'a, P: VariableProvider + ?Sized> {
    pub base: &'a P,
    pub overlay: &'a SimpleContext,
}

impl<'a, P: VariableProvider + ?Sized> VariableProvider for OverlayProvider<'a, P> {
    open spec fn bindings(&self) -> Map<Seq<char>, Seq<char>> {
        overlaid(self.base.bindings(), self.overlay.bindings())
    }

    fn get_value(&self, key: &str) -> (r: Option<&str>) {
        match self.overlay.get_value(key) {
            Some(v) => Some(v),
            None => self.base.get_value(key),
        }
    }
}

} // verus!
