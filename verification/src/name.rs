//! Package names: a scope and a name, each fit to be a directory segment.

use vstd::prelude::*;
use vstd::string::*;
use crate::text::{chars_of, is_path_safe, path_safe};

verus! {

/// What a package name is, as plain text.
pub ghost struct NameView {
    pub scope: Seq<char>,
    pub name: Seq<char>,
}

impl NameView {
    /// Both parts can stand as path segments.
    pub open spec fn wf(self) -> bool {
        path_safe(self.scope) && path_safe(self.name)
    }

    /// The name as it is written: scope, a slash, name.
    pub open spec fn text(self) -> Seq<char> {
        self.scope + seq!['/'] + self.name
    }
}

/// A scoped package name. Every value of this type is path-safe in both parts.
#[derive(Debug, PartialEq, Eq)]
pub struct PackageName {
    scope: String,
    name: String,
}

impl View for PackageName {
    type V = NameView;

    closed spec fn view(&self) -> NameView {
        NameView { scope: self.scope@, name: self.name@ }
    }
}

impl PackageName {
    #[verifier::type_invariant]
    spec fn inv(self) -> bool {
        self@.wf()
    }

    /// Builds a name, unless one of the parts is not path-safe.
    pub fn new(scope: &str, name: &str) -> (made: Option<PackageName>)
        ensures
            made is Some <==> path_safe(scope@) && path_safe(name@),
            made matches Some(n) ==> n@ == (NameView { scope: scope@, name: name@ }) && n@.wf(),
    {
        if is_path_safe(scope) && is_path_safe(name) {
            Some(PackageName { scope: scope.to_owned(), name: name.to_owned() })
        } else {
            None
        }
    }

    pub fn scope(&self) -> (scope: &str)
        ensures
            scope@ == self@.scope,
            self@.wf(),
    {
        proof {
            use_type_invariant(self);
        }
        self.scope.as_str()
    }

    pub fn name(&self) -> (name: &str)
        ensures
            name@ == self@.name,
            self@.wf(),
    {
        proof {
            use_type_invariant(self);
        }
        self.name.as_str()
    }

    /// Reads a name from the way it is written. There is a name to return
    /// exactly when `text` is the writing of one: two path-safe parts with one
    /// slash between them.
    pub fn parse(text: &str) -> (parsed: Option<PackageName>)
        ensures
            parsed matches Some(name) ==> name@.wf() && name@.text() == text@,
            parsed is None ==> forall|name: NameView| name.wf() ==> name.text() != text@,
    {
        let chars = chars_of(text);
        let ghost s = chars@;
        let mut i: usize = 0;
        while i < chars.len() && chars[i] != '/'
            invariant
                s == chars@,
                i <= chars.len(),
                forall|k: int| 0 <= k < i ==> s[k] != '/',
            decreases chars.len() - i,
        {
            i = i + 1;
        }
        if i >= chars.len() {
            assert forall|name: NameView| name.wf() implies name.text() != s by {
                if name.text() == s {
                    assert(name.text()[name.scope.len() as int] == '/');
                }
            }
            return None;
        }
        let scope = text.substring_char(0, i);
        let name = text.substring_char(i + 1, chars.len());
        proof {
            assert(s =~= scope@ + seq!['/'] + name@);
            assert forall|other: NameView| other.wf() && other.text() == s implies other.scope
                == scope@ && other.name == name@ by {
                lemma_cut_at_slash(other.scope, other.name, scope@, name@);
            }
        }
        PackageName::new(scope, name)
    }

    /// Writes the name out: scope, a slash, name.
    pub fn to_text(&self) -> (text: String)
        ensures
            text@ == self@.text(),
    {
        let mut text = self.scope.clone();
        text.append("/");
        text.append(self.name.as_str());
        proof {
            reveal_strlit("/");
            assert("/"@ =~= seq!['/']);
        }
        text
    }

    /// Whether two names are the same in both parts.
    pub fn same_as(&self, other: &PackageName) -> (same: bool)
        ensures
            same == (self@ == other@),
    {
        self.scope == other.scope && self.name == other.name
    }
}

impl Clone for PackageName {
    fn clone(&self) -> (copy: Self)
        ensures
            copy@ == self@,
    {
        proof {
            use_type_invariant(self);
        }
        PackageName { scope: self.scope.clone(), name: self.name.clone() }
    }
}

/// Two texts that are cut at their first slash are equal only if both parts are.
pub proof fn lemma_cut_at_slash(a: Seq<char>, rest_a: Seq<char>, b: Seq<char>, rest_b: Seq<char>)
    requires
        forall|i: int| 0 <= i < a.len() ==> a[i] != '/',
        forall|i: int| 0 <= i < b.len() ==> b[i] != '/',
        a + seq!['/'] + rest_a == b + seq!['/'] + rest_b,
    ensures
        a == b,
        rest_a == rest_b,
{
    let ta = a + seq!['/'] + rest_a;
    let tb = b + seq!['/'] + rest_b;
    if a.len() < b.len() {
        assert(ta[a.len() as int] == '/');
        assert(tb[a.len() as int] == b[a.len() as int]);
    }
    if b.len() < a.len() {
        assert(tb[b.len() as int] == '/');
        assert(ta[b.len() as int] == a[b.len() as int]);
    }
    assert forall|i: int| 0 <= i < a.len() implies a[i] == b[i] by {
        assert(ta[i] == a[i]);
        assert(tb[i] == b[i]);
    }
    assert(a =~= b);
    assert(ta.len() == a.len() + 1 + rest_a.len());
    assert(tb.len() == b.len() + 1 + rest_b.len());
    assert forall|i: int| 0 <= i < rest_a.len() implies rest_a[i] == rest_b[i] by {
        assert(ta[a.len() + 1 + i] == rest_a[i]);
        assert(tb[b.len() + 1 + i] == rest_b[i]);
    }
    assert(rest_a =~= rest_b);
}

/// A name has one way of being written.
pub proof fn lemma_text_injective(a: NameView, b: NameView)
    requires
        a.wf(),
        b.wf(),
        a.text() == b.text(),
    ensures
        a == b,
{
    lemma_cut_at_slash(a.scope, a.name, b.scope, b.name);
}

} // verus!
