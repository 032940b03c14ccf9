//! Rules on the text of names, shared by the types that are turned into paths.

use vstd::prelude::*;
use vstd::std_specs::iter::IteratorSpec;

verus! {

/// A name can stand as one segment of a path: it is not empty, holds no
/// separator (`/` or `\`), holds no two dots in a row, and is not the single
/// dot that names the directory itself.
pub open spec fn path_safe(s: Seq<char>) -> bool {
    &&& s.len() > 0
    &&& s != seq!['.']
    &&& forall|i: int| 0 <= i < s.len() ==> s[i] != '/' && s[i] != '\\'
    &&& forall|i: int| 0 < i < s.len() ==> !(s[i - 1] == '.' && #[trigger] s[i] == '.')
}

/// Decides `path_safe` in one pass over the characters.
pub fn is_path_safe(s: &str) -> (safe: bool)
    ensures
        safe == path_safe(s@),
{
    let mut count: usize = 0;
    let mut only_dot = true;
    let mut separators = false;
    let mut dot_pair = false;
    let mut last_was_dot = false;
    for c in it: s.chars()
        invariant
            it.seq() == s@,
            count <= 2,
            count < 2 ==> count == it.index(),
            count == 2 ==> it.index() >= 2,
            only_dot == (forall|i: int| 0 <= i < it.index() ==> s@[i] == '.'),
            separators == (exists|i: int| 0 <= i < it.index() && (s@[i] == '/' || s@[i] == '\\')),
            dot_pair == (exists|i: int| 0 < i < it.index() && s@[i - 1] == '.' && #[trigger] s@[i] == '.'),
            last_was_dot == (it.index() > 0 && s@[it.index() - 1] == '.'),
    {
        if count < 2 {
            count = count + 1;
        }
        if c == '/' || c == '\\' {
            separators = true;
        }
        if c == '.' {
            if last_was_dot {
                dot_pair = true;
            }
            last_was_dot = true;
        } else {
            only_dot = false;
            last_was_dot = false;
        }
    }
    proof {
        if count == 1 && only_dot {
            assert(s@ =~= seq!['.']);
        }
        if s@ == seq!['.'] {
            assert(s@.len() == 1);
            assert(s@[0] == '.');
        }
    }
    count > 0 && !(count == 1 && only_dot) && !separators && !dot_pair
}

/// A name that is path-safe and neither begins nor ends with a dot.
pub open spec fn clean(s: Seq<char>) -> bool {
    &&& s.len() > 0
    &&& s[0] != '.'
    &&& s[s.len() - 1] != '.'
    &&& forall|i: int| 0 <= i < s.len() ==> s[i] != '/' && s[i] != '\\'
    &&& forall|i: int| 0 < i < s.len() ==> !(s[i - 1] == '.' && #[trigger] s[i] == '.')
}

/// A clean name is path-safe.
pub proof fn lemma_clean_is_safe(s: Seq<char>)
    requires
        clean(s),
    ensures
        path_safe(s),
{
    if s == seq!['.'] {
        assert(s[0] == '.');
    }
}

/// Two clean names with a dot between them make a clean name.
pub proof fn lemma_clean_dotted(a: Seq<char>, b: Seq<char>)
    requires
        clean(a),
        clean(b),
    ensures
        clean(a + seq!['.'] + b),
{
    let s = a + seq!['.'] + b;
    assert(s[0] == a[0]);
    assert(s[s.len() - 1] == b[b.len() - 1]);
    assert forall|i: int| 0 <= i < s.len() implies s[i] != '/' && s[i] != '\\' by {
        if i < a.len() {
            assert(s[i] == a[i]);
        } else if i > a.len() {
            assert(s[i] == b[i - a.len() - 1]);
        }
    }
    assert forall|i: int| 0 < i < s.len() implies !(s[i - 1] == '.' && #[trigger] s[i] == '.') by {
        if i < a.len() {
            assert(s[i] == a[i] && s[i - 1] == a[i - 1]);
        } else if i == a.len() {
            assert(s[i - 1] == a[a.len() - 1]);
        } else if i == a.len() + 1 {
            assert(s[i] == b[0]);
        } else {
            assert(s[i] == b[i - a.len() - 1] && s[i - 1] == b[i - a.len() - 2]);
        }
    }
}

/// The characters of a text, one by one.
pub fn chars_of(s: &str) -> (chars: Vec<char>)
    ensures
        chars@ == s@,
{
    let mut chars: Vec<char> = Vec::new();
    for c in it: s.chars()
        invariant
            it.seq() == s@,
            chars@ == s@.take(it.index() as int),
    {
        chars.push(c);
        assert(s@.take(it.index() + 1) =~= s@.take(it.index() as int).push(c));
    }
    assert(s@.take(s@.len() as int) =~= s@);
    chars
}

/// `a` comes before `b` in the order of the dictionary: at the first place
/// where they differ `a` has the smaller character, or `a` ends there and `b`
/// goes on.
pub open spec fn name_before(a: Seq<char>, b: Seq<char>) -> bool
    decreases a.len(),
{
    if b.len() == 0 {
        false
    } else if a.len() == 0 {
        true
    } else if a[0] != b[0] {
        a[0] < b[0]
    } else {
        name_before(a.drop_first(), b.drop_first())
    }
}

/// How one name stands to another in the order of the dictionary.
#[derive(Clone, Copy, Debug, PartialEq, Eq, Structural)]
pub enum Placement {
    Before,
    Same,
    After,
}

/// How `a` stands to `b` in the order of the dictionary.
pub open spec fn placement(a: Seq<char>, b: Seq<char>) -> Placement {
    if a == b {
        Placement::Same
    } else if name_before(a, b) {
        Placement::Before
    } else {
        Placement::After
    }
}

/// No name comes before itself.
pub proof fn lemma_before_irreflexive(a: Seq<char>)
    ensures
        !name_before(a, a),
    decreases a.len(),
{
    if a.len() > 0 {
        lemma_before_irreflexive(a.drop_first());
    }
}

/// Of two names that differ, one comes before the other.
pub proof fn lemma_before_total(a: Seq<char>, b: Seq<char>)
    ensures
        a == b || name_before(a, b) || name_before(b, a),
    decreases a.len(),
{
    if a.len() == 0 || b.len() == 0 {
        if a.len() == 0 && b.len() == 0 {
            assert(a =~= b);
        }
    } else if a[0] == b[0] {
        lemma_before_total(a.drop_first(), b.drop_first());
        if a.drop_first() == b.drop_first() {
            assert(a =~= seq![a[0]] + a.drop_first());
            assert(b =~= seq![b[0]] + b.drop_first());
        }
    }
}

/// What comes before a name comes before all that the name comes before.
pub proof fn lemma_before_transitive(a: Seq<char>, b: Seq<char>, c: Seq<char>)
    requires
        name_before(a, b),
        name_before(b, c),
    ensures
        name_before(a, c),
    decreases a.len(),
{
    if a.len() > 0 {
        if a[0] == b[0] && b[0] == c[0] {
            lemma_before_transitive(a.drop_first(), b.drop_first(), c.drop_first());
        }
    }
}

/// Of two names, at most one comes before the other.
pub proof fn lemma_before_asymmetric(a: Seq<char>, b: Seq<char>)
    requires
        name_before(a, b),
    ensures
        !name_before(b, a),
{
    if name_before(b, a) {
        lemma_before_transitive(a, b, a);
        lemma_before_irreflexive(a);
    }
}

/// Finds how `a` stands to `b` in the order of the dictionary.
pub fn place(a: &str, b: &str) -> (found: Placement)
    ensures
        found == placement(a@, b@),
{
    let mut rest_a = a.chars();
    let mut rest_b = b.chars();
    let ghost mut k: int = 0;
    proof {
        assert(a@.skip(0) =~= a@);
        assert(b@.skip(0) =~= b@);
        assert(a@.take(0) =~= b@.take(0));
    }
    loop
        invariant
            0 <= k <= a@.len(),
            k <= b@.len(),
            rest_a.remaining() == a@.skip(k),
            rest_b.remaining() == b@.skip(k),
            a@.take(k) == b@.take(k),
            placement(a@, b@) == placement(a@.skip(k), b@.skip(k)),
        decreases a@.len() - k,
    {
        let next_a = rest_a.next();
        let next_b = rest_b.next();
        let ghost sa = a@.skip(k);
        let ghost sb = b@.skip(k);
        match (next_a, next_b) {
            (None, None) => {
                assert(sa =~= sb);
                return Placement::Same;
            },
            (None, Some(_)) => {
                return Placement::Before;
            },
            (Some(_), None) => {
                return Placement::After;
            },
            (Some(x), Some(y)) => {
                if x < y {
                    return Placement::Before;
                }
                if y < x {
                    return Placement::After;
                }
                proof {
                    assert(sa.drop_first() =~= a@.skip(k + 1));
                    assert(sb.drop_first() =~= b@.skip(k + 1));
                    assert(a@.take(k + 1) =~= a@.take(k).push(x));
                    assert(b@.take(k + 1) =~= b@.take(k).push(y));
                    assert(x == y);
                    if sa.drop_first() == sb.drop_first() {
                        assert(sa =~= seq![x] + sa.drop_first());
                        assert(sb =~= seq![y] + sb.drop_first());
                    }
                    k = k + 1;
                }
            },
        }
    }
}

} // verus!
