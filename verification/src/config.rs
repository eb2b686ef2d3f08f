//! Server configuration, as read from the client's `netconf` settings.

use vstd::prelude::*;
use crate::text::{str_eq, views};

verus! {

/// The settings the server reads (`netconf.indentSize`, `netconf.semantic`).
pub struct Config {
    /// Number of spaces per indentation level (spaces only; no tabs).
    pub indent_size: Option<u8>,
    /// Semantic-token classification customization (`netconf.semantic`).
    pub semantic: SemanticSettings,
}

/// `netconf.semantic`: for each highlight role named, the token type and
/// modifiers that replace the role's built-in classification. A role left
/// out keeps its built-in classification.
pub struct SemanticSettings {
    /// Role key and its override, by key, each key once.
    pub roles: Vec<(String, SemanticOverride)>,
}

/// The value of one role: only a token type name, or a token type and
/// modifiers, each of them optional.
pub enum SemanticOverride {
    /// Shorthand: only the token type; the role keeps its modifiers.
    Type(String),
    /// Full form: a missing `token` keeps the role's type, missing
    /// `modifiers` keep its modifiers, an empty list clears them.
    Fields { token: Option<String>, modifiers: Option<Vec<String>> },
}

/// The mathematical form of a role's override.
pub enum OverrideView {
    Type(Seq<char>),
    Fields(Option<Seq<char>>, Option<Seq<Seq<char>>>),
}

impl SemanticOverride {
    pub open spec fn view(&self) -> OverrideView {
        match self {
            SemanticOverride::Type(t) => OverrideView::Type(t@),
            SemanticOverride::Fields { token, modifiers } => OverrideView::Fields(
                match token {
                    Some(t) => Some(t@),
                    None => None,
                },
                match modifiers {
                    Some(ms) => Some(views(ms@)),
                    None => None,
                },
            ),
        }
    }
}

impl SemanticSettings {
    /// The roles with their overrides, in order.
    pub open spec fn view(&self) -> Seq<(Seq<char>, OverrideView)> {
        self.roles@.map_values(|e: (String, SemanticOverride)| (e.0@, e.1.view()))
    }

    /// No role customized.
    pub fn new() -> (r: Self)
        ensures
            r.view() == Seq::<(Seq<char>, OverrideView)>::empty(),
    {
        let r = SemanticSettings { roles: Vec::new() };
        proof {
            assert(r.view() =~= Seq::<(Seq<char>, OverrideView)>::empty());
        }
        r
    }
}

/// Whether two lists of names are the same.
fn names_equal(a: &Vec<String>, b: &Vec<String>) -> (r: bool)
    ensures
        r == (views(a@) == views(b@)),
{
    if a.len() != b.len() {
        proof {
            assert(views(a@).len() != views(b@).len());
        }
        return false;
    }
    let mut k: usize = 0;
    while k < a.len()
        invariant
            a@.len() == b@.len(),
            k <= a@.len(),
            forall|j: int| 0 <= j < k ==> a@[j]@ == b@[j]@,
        decreases a@.len() - k,
    {
        if !str_eq(a[k].as_str(), b[k].as_str()) {
            proof {
                assert(views(a@)[k as int] != views(b@)[k as int]);
            }
            return false;
        }
        k = k + 1;
    }
    proof {
        assert(views(a@) =~= views(b@));
    }
    true
}

/// Whether two optional names are the same.
fn opt_name_equal(a: &Option<String>, b: &Option<String>) -> (r: bool)
    ensures
        r == (match a {
            Some(x) => Some(x@),
            None => None::<Seq<char>>,
        } == match b {
            Some(x) => Some(x@),
            None => None::<Seq<char>>,
        }),
{
    match (a, b) {
        (Some(x), Some(y)) => str_eq(x.as_str(), y.as_str()),
        (None, None) => true,
        _ => false,
    }
}

/// Whether two role overrides are the same.
fn override_equal(a: &SemanticOverride, b: &SemanticOverride) -> (r: bool)
    ensures
        r == (a.view() == b.view()),
{
    match (a, b) {
        (SemanticOverride::Type(x), SemanticOverride::Type(y)) => str_eq(x.as_str(), y.as_str()),
        (SemanticOverride::Fields { token: t1, modifiers: m1 }, SemanticOverride::Fields { token: t2, modifiers: m2 }) => {
            if !opt_name_equal(t1, t2) {
                return false;
            }
            match (m1, m2) {
                (Some(x), Some(y)) => names_equal(x, y),
                (None, None) => true,
                _ => false,
            }
        },
        _ => false,
    }
}

/// Whether a configuration update changes the semantic classification,
/// so that open documents must request their tokens again.
pub fn semantic_changed(old: &SemanticSettings, new: &SemanticSettings) -> (r: bool)
    ensures
        r == (old.view() != new.view()),
{
    let n = old.roles.len();
    if n != new.roles.len() {
        proof {
            assert(old.view().len() != new.view().len());
        }
        return true;
    }
    let mut k: usize = 0;
    while k < n
        invariant
            n == old.roles@.len(),
            n == new.roles@.len(),
            k <= n,
            forall|j: int| 0 <= j < k ==> old.view()[j] == new.view()[j],
        decreases n - k,
    {
        let (ka, va) = &old.roles[k];
        let (kb, vb) = &new.roles[k];
        if !str_eq(ka.as_str(), kb.as_str()) || !override_equal(va, vb) {
            proof {
                assert(old.view()[k as int] != new.view()[k as int]);
            }
            return true;
        }
        k = k + 1;
    }
    proof {
        assert(old.view() =~= new.view());
    }
    false
}

/// The indentation width for a configured `indentSize`: the setting clamped
/// to `1..=16`, two spaces when unset.
pub open spec fn indent_width_of(indent_size: Option<u8>) -> u32 {
    match indent_size {
        Some(v) => if v < 1 {
            1
        } else if v > 16 {
            16
        } else {
            v as u32
        },
        None => 2,
    }
}

impl Config {
    /// The formatter's indentation width ([`indent_width_of`]).
    pub fn indent_width(&self) -> (r: u32)
        ensures
            r == indent_width_of(self.indent_size),
            1 <= r <= 16,
    {
        match self.indent_size {
            Some(v) => {
                if v < 1 {
                    1
                } else if v > 16 {
                    16
                } else {
                    v as u32
                }
            },
            None => 2,
        }
    }
}

} // verus!
