//! Identifiers of nodes: the key of a node, written in letters, digits and
//! underscores alone, and told apart from every other node's.

use vstd::prelude::*;
use crate::graph::{Name, name_keys};
use crate::seqs::{count, lemma_count_strict};
use crate::text::{chars_of, decimal, hexadecimal, is_decimal_digit, lemma_decimal_digits, lemma_decimal_injective, push_decimal, push_hexadecimal, push_text};

verus! {

/// Letters and digits stand for themselves in an identifier.
pub open spec fn is_plain(c: char) -> bool {
    ('a' <= c && c <= 'z') || ('A' <= c && c <= 'Z') || ('0' <= c && c <= '9')
}

/// How one character of a key is written in an identifier: a letter or a
/// digit as it is, an underscore doubled, anything else as its code in
/// hexadecimal between two underscores.
pub open spec fn normal_char(c: char) -> Seq<char> {
    if is_plain(c) {
        seq![c]
    } else if c == '_' {
        seq!['_', '_']
    } else {
        seq!['_'] + hexadecimal(c as u32 as nat) + seq!['_']
    }
}

/// A key written in letters, digits and underscores.
pub open spec fn normalized(s: Seq<char>) -> Seq<char>
    decreases s.len(),
{
    if s.len() == 0 {
        Seq::empty()
    } else {
        normalized(s.drop_last()) + normal_char(s.last())
    }
}

/// The number of underscores in `s`.
pub open spec fn underscores(s: Seq<char>) -> nat
    decreases s.len(),
{
    if s.len() == 0 {
        0
    } else {
        underscores(s.drop_last()) + if s.last() == '_' {
            1nat
        } else {
            0nat
        }
    }
}

/// Underscores add up over concatenation.
pub proof fn lemma_underscores_concat(a: Seq<char>, b: Seq<char>)
    ensures
        underscores(a + b) == underscores(a) + underscores(b),
    decreases b.len(),
{
    if b.len() == 0 {
        assert(a + b == a);
    } else {
        lemma_underscores_concat(a, b.drop_last());
        assert((a + b).drop_last() == a + b.drop_last());
    }
}

/// A text without underscores counts none.
pub proof fn lemma_underscores_none(s: Seq<char>)
    requires
        forall|i: int| 0 <= i < s.len() ==> s[i] != '_',
    ensures
        underscores(s) == 0,
    decreases s.len(),
{
    if s.len() > 0 {
        lemma_underscores_none(s.drop_last());
    }
}

/// A hexadecimal numeral holds no underscore.
pub proof fn lemma_hexadecimal_plain(n: nat)
    ensures
        forall|i: int| 0 <= i < hexadecimal(n).len() ==> hexadecimal(n)[i] != '_',
    decreases n,
{
    if n >= 16 {
        lemma_hexadecimal_plain(n / 16);
        assert forall|i: int| 0 <= i < hexadecimal(n).len() implies hexadecimal(n)[i] != '_' by {
            if i < hexadecimal(n / 16).len() {
                assert(hexadecimal(n)[i] == hexadecimal(n / 16)[i]);
            }
        }
    }
}

/// Every character of a key brings an even number of underscores.
pub proof fn lemma_normal_char_even(c: char)
    ensures
        underscores(normal_char(c)) % 2 == 0,
{
    if is_plain(c) {
        lemma_underscores_none(seq![c]);
    } else if c == '_' {
        let s = seq!['_', '_'];
        assert(s.drop_last() == seq!['_']);
        assert(seq!['_'].drop_last() == Seq::<char>::empty());
        assert(underscores(Seq::<char>::empty()) == 0);
        assert(underscores(seq!['_']) == 1);
        assert(underscores(s) == 2);
    } else {
        let h = hexadecimal(c as u32 as nat);
        lemma_hexadecimal_plain(c as u32 as nat);
        lemma_underscores_none(h);
        let one = seq!['_'];
        assert(one.drop_last() == Seq::<char>::empty());
        assert(underscores(Seq::<char>::empty()) == 0);
        assert(underscores(one) == 1);
        lemma_underscores_concat(one, h);
        lemma_underscores_concat(one + h, one);
    }
}

/// A normalized key holds an even number of underscores.
pub proof fn lemma_normalized_even(s: Seq<char>)
    ensures
        underscores(normalized(s)) % 2 == 0,
    decreases s.len(),
{
    if s.len() > 0 {
        lemma_normalized_even(s.drop_last());
        lemma_normal_char_even(s.last());
        lemma_underscores_concat(normalized(s.drop_last()), normal_char(s.last()));
    }
}

/// Appends the normalized form of `s` to `out`.
#[verifier::loop_isolation(false)]
pub fn push_normalized(out: &mut String, s: &str)
    ensures
        final(out)@ == old(out)@ + normalized(s@),
{
    let v = chars_of(s);
    let mut i: usize = 0;
    while i < v.len()
        invariant
            i <= v.len(),
            out@ == old(out)@ + normalized(v@.subrange(0, i as int)),
        decreases v.len() - i,
    {
        let c = v[i];
        proof {
            let next = v@.subrange(0, i + 1);
            assert(next.drop_last() == v@.subrange(0, i as int));
            assert(next.last() == c);
        }
        let ghost before = out@;
        if ('a' <= c && c <= 'z') || ('A' <= c && c <= 'Z') || ('0' <= c && c <= '9') {
            out.push(c);
        } else if c == '_' {
            out.push('_');
            out.push('_');
        } else {
            out.push('_');
            let code: u32 = c as u32;
            push_hexadecimal(out, code);
            out.push('_');
            assert(out@ == before + (seq!['_'] + hexadecimal(c as u32 as nat) + seq!['_']));
        }
        assert(out@ == before + normal_char(c));
        i += 1;
    }
    assert(v@.subrange(0, i as int) == v@);
}

/// Whether `a` comes before `b` in the order of a dictionary.
pub open spec fn lex_less(a: Seq<char>, b: Seq<char>) -> bool
    decreases a.len(),
{
    if b.len() == 0 {
        false
    } else if a.len() == 0 {
        true
    } else if a[0] != b[0] {
        a[0] < b[0]
    } else {
        lex_less(a.skip(1), b.skip(1))
    }
}

/// No text comes before itself.
pub proof fn lemma_lex_irreflexive(a: Seq<char>)
    ensures
        !lex_less(a, a),
    decreases a.len(),
{
    if a.len() > 0 {
        lemma_lex_irreflexive(a.skip(1));
    }
}

/// Of two different texts one comes before the other.
pub proof fn lemma_lex_total(a: Seq<char>, b: Seq<char>)
    ensures
        a == b || lex_less(a, b) || lex_less(b, a),
    decreases a.len(),
{
    if a.len() == 0 || b.len() == 0 {
        if a.len() == 0 && b.len() == 0 {
            assert(a =~= b);
        }
    } else if a[0] == b[0] {
        lemma_lex_total(a.skip(1), b.skip(1));
        if a.skip(1) == b.skip(1) {
            assert(a =~= seq![a[0]] + a.skip(1));
            assert(b =~= seq![b[0]] + b.skip(1));
        }
    }
}

/// The order of a dictionary is transitive.
pub proof fn lemma_lex_trans(a: Seq<char>, b: Seq<char>, c: Seq<char>)
    requires
        lex_less(a, b),
        lex_less(b, c),
    ensures
        lex_less(a, c),
    decreases a.len(),
{
    if a.len() > 0 {
        if a[0] == b[0] && b[0] == c[0] {
            lemma_lex_trans(a.skip(1), b.skip(1), c.skip(1));
        }
    }
}

/// Whether `a` comes before `b` in the order of a dictionary.
#[verifier::loop_isolation(false)]
pub fn text_less(a: &Vec<char>, b: &Vec<char>) -> (r: bool)
    ensures
        r == lex_less(a@, b@),
{
    let mut i: usize = 0;
    assert(a@.skip(0) =~= a@);
    assert(b@.skip(0) =~= b@);
    loop
        invariant
            i <= a.len(),
            i <= b.len(),
            lex_less(a@, b@) == lex_less(a@.skip(i as int), b@.skip(i as int)),
        decreases a.len() - i,
    {
        if i >= b.len() {
            return false;
        }
        if i >= a.len() {
            return true;
        }
        proof {
            assert(a@.skip(i as int)[0] == a@[i as int]);
            assert(b@.skip(i as int)[0] == b@[i as int]);
            assert(a@.skip(i as int).skip(1) =~= a@.skip(i + 1));
            assert(b@.skip(i as int).skip(1) =~= b@.skip(i + 1));
        }
        if a[i] != b[i] {
            return a[i] < b[i];
        }
        i += 1;
    }
}

/// Whether `a` and `b` are the same text.
#[verifier::loop_isolation(false)]
pub fn text_same(a: &Vec<char>, b: &Vec<char>) -> (r: bool)
    ensures
        r == (a@ == b@),
{
    if a.len() != b.len() {
        return false;
    }
    let mut i: usize = 0;
    while i < a.len()
        invariant
            i <= a.len(),
            forall|k: int| 0 <= k < i ==> a@[k] == b@[k],
        decreases a.len() - i,
    {
        if a[i] != b[i] {
            return false;
        }
        i += 1;
    }
    assert(a@ =~= b@);
    true
}

/// The keys of nodes `i` and `j` are normalized alike.
pub open spec fn same_base(keys: Seq<Seq<char>>, i: int, j: int) -> bool {
    normalized(keys[i]) == normalized(keys[j])
}

/// Another node's key is normalized like that of node `i`.
pub open spec fn collides(keys: Seq<Seq<char>>, i: int) -> bool {
    exists|j: int| 0 <= j < keys.len() && j != i && #[trigger] same_base(keys, i, j)
}

/// Node `j` collides with node `i` and comes before it: by its key in the
/// order of a dictionary and, where the keys are one, by its index.
pub open spec fn before(keys: Seq<Seq<char>>, j: int, i: int) -> bool {
    same_base(keys, i, j) && (lex_less(keys[j], keys[i]) || (keys[j] == keys[i] && j < i))
}

/// `before` as a predicate on the earlier node.
pub open spec fn before_pred(keys: Seq<Seq<char>>, i: int) -> spec_fn(int) -> bool {
    |j: int| before(keys, j, i)
}

/// The place of node `i` among the nodes it collides with, sorted by key.
pub open spec fn rank(keys: Seq<Seq<char>>, i: int) -> nat {
    count(keys.len(), before_pred(keys, i))
}

/// The identifier of node `i`: its normalized key and, where that collides
/// with another node's, an underscore and the node's rank among them.
pub open spec fn node_id(keys: Seq<Seq<char>>, i: int) -> Seq<char> {
    if collides(keys, i) {
        normalized(keys[i]) + seq!['_'] + decimal(rank(keys, i))
    } else {
        normalized(keys[i])
    }
}

/// The identifiers of all nodes.
pub open spec fn node_ids(keys: Seq<Seq<char>>) -> Seq<Seq<char>> {
    Seq::new(keys.len(), |i: int| node_id(keys, i))
}

/// A node that comes before another has the lower rank.
pub proof fn lemma_rank_strict(keys: Seq<Seq<char>>, j: int, i: int)
    requires
        0 <= i < keys.len(),
        0 <= j < keys.len(),
        before(keys, j, i),
    ensures
        rank(keys, j) < rank(keys, i),
{
    let p = before_pred(keys, j);
    let q = before_pred(keys, i);
    assert forall|k: int| 0 <= k < keys.len() && #[trigger] p(k) implies q(k) by {
        assert(before(keys, k, j));
        if lex_less(keys[k], keys[j]) && lex_less(keys[j], keys[i]) {
            lemma_lex_trans(keys[k], keys[j], keys[i]);
        }
    }
    lemma_lex_irreflexive(keys[j]);
    assert(q(j));
    assert(!p(j));
    lemma_count_strict(keys.len(), p, q, j);
}

/// Two texts that end in an underscore and a decimal numeral are the same
/// only if what stands before the underscore is the same, and the numeral.
pub proof fn lemma_split(a: Seq<char>, d1: Seq<char>, b: Seq<char>, d2: Seq<char>)
    requires
        forall|i: int| 0 <= i < d1.len() ==> is_decimal_digit(#[trigger] d1[i]),
        forall|i: int| 0 <= i < d2.len() ==> is_decimal_digit(#[trigger] d2[i]),
        a + seq!['_'] + d1 == b + seq!['_'] + d2,
    ensures
        a == b,
        d1 == d2,
{
    let x = a + seq!['_'] + d1;
    let y = b + seq!['_'] + d2;
    assert(x.len() == a.len() + 1 + d1.len());
    assert(y.len() == b.len() + 1 + d2.len());
    assert(x[a.len() as int] == '_');
    assert(y[b.len() as int] == '_');
    if a.len() < b.len() {
        assert(y[a.len() as int] == '_');
        let i = (b.len() - a.len() - 1) as int;
        assert(x[b.len() as int] == d1[i]);
        assert(is_decimal_digit(d1[i]));
    } else if b.len() < a.len() {
        let i = (a.len() - b.len() - 1) as int;
        assert(y[a.len() as int] == d2[i]);
        assert(is_decimal_digit(d2[i]));
    } else {
        assert forall|i: int| 0 <= i < a.len() implies a[i] == b[i] by {
            assert(x[i] == a[i]);
            assert(y[i] == b[i]);
        }
        assert(a =~= b);
        assert forall|i: int| 0 <= i < d1.len() implies d1[i] == d2[i] by {
            assert(x[a.len() + 1 + i] == d1[i]);
            assert(y[b.len() + 1 + i] == d2[i]);
        }
        assert(d1 =~= d2);
    }
}

/// Identifiers are unique: no two nodes of a graph get the same identifier,
/// whatever their keys are.
pub proof fn law_ids_distinct(keys: Seq<Seq<char>>, i: int, j: int)
    requires
        0 <= i < keys.len(),
        0 <= j < keys.len(),
        i != j,
    ensures
        node_id(keys, i) != node_id(keys, j),
{
    let bi = normalized(keys[i]);
    let bj = normalized(keys[j]);
    let us = seq!['_'];
    assert(us.drop_last() == Seq::<char>::empty());
    assert(underscores(Seq::<char>::empty()) == 0);
    assert(underscores(us) == 1);
    lemma_normalized_even(keys[i]);
    lemma_normalized_even(keys[j]);
    let di = decimal(rank(keys, i));
    let dj = decimal(rank(keys, j));
    lemma_decimal_digits(rank(keys, i));
    lemma_decimal_digits(rank(keys, j));
    lemma_underscores_none(di);
    lemma_underscores_none(dj);
    lemma_underscores_concat(bi, us);
    lemma_underscores_concat(bi + us, di);
    lemma_underscores_concat(bj, us);
    lemma_underscores_concat(bj + us, dj);
    if collides(keys, i) && collides(keys, j) {
        if node_id(keys, i) == node_id(keys, j) {
            lemma_split(bi, di, bj, dj);
            lemma_decimal_injective(rank(keys, i), rank(keys, j));
            assert(same_base(keys, i, j));
            assert(same_base(keys, j, i));
            lemma_lex_total(keys[i], keys[j]);
            if before(keys, j, i) {
                lemma_rank_strict(keys, j, i);
            } else {
                assert(before(keys, i, j));
                lemma_rank_strict(keys, i, j);
            }
        }
    } else if !collides(keys, i) && !collides(keys, j) {
        if bi == bj {
            assert(same_base(keys, i, j));
        }
    }
}

/// The identifiers of the nodes that `names` names.
#[verifier::loop_isolation(false)]
pub fn assign_ids(names: &Vec<Name>) -> (ids: Vec<String>)
    ensures
        ids@.len() == names@.len(),
        forall|i: int| 0 <= i < ids@.len() ==> (#[trigger] ids@[i])@ == node_id(name_keys(names@), i),
{
    let n = names.len();
    let ghost keys = name_keys(names@);
    let mut bases: Vec<String> = Vec::new();
    let mut texts: Vec<Vec<char>> = Vec::new();
    let mut i: usize = 0;
    while i < n
        invariant
            i <= n,
            bases@.len() == i,
            texts@.len() == i,
            forall|k: int| 0 <= k < i ==> (#[trigger] bases@[k])@ == normalized(keys[k]),
            forall|k: int| 0 <= k < i ==> (#[trigger] texts@[k])@ == keys[k],
        decreases n - i,
    {
        let mut base = String::new();
        push_normalized(&mut base, names[i].key.as_str());
        bases.push(base);
        texts.push(chars_of(names[i].key.as_str()));
        i += 1;
    }
    let mut ids: Vec<String> = Vec::new();
    let mut i: usize = 0;
    while i < n
        invariant
            i <= n,
            ids@.len() == i,
            forall|k: int| 0 <= k < i ==> (#[trigger] ids@[k])@ == node_id(keys, k),
        decreases n - i,
    {
        let mut clash = false;
        let mut place: usize = 0;
        let mut j: usize = 0;
        while j < n
            invariant
                j <= n,
                i < n,
                place == count(j as nat, before_pred(keys, i as int)),
                place <= j,
                clash == exists|k: int| 0 <= k < j && k != i && #[trigger] same_base(keys, i as int, k),
            decreases n - j,
        {
            let ghost seen = clash;
            if j != i && bases[j] == bases[i] {
                assert(same_base(keys, i as int, j as int));
                clash = true;
                if text_less(&texts[j], &texts[i]) || (j < i && text_same(&texts[j], &texts[i])) {
                    place += 1;
                }
            } else {
                proof {
                    lemma_lex_irreflexive(keys[i as int]);
                    assert(!before(keys, j as int, i as int));
                    if exists|k: int| 0 <= k < j + 1 && k != i && #[trigger] same_base(keys, i as int, k) {
                        let k = choose|k: int|
                            0 <= k < j + 1 && k != i && #[trigger] same_base(keys, i as int, k);
                        assert(k < j);
                    }
                }
            }
            j += 1;
        }
        let mut id = String::new();
        push_text(&mut id, bases[i].as_str());
        if clash {
            id.push('_');
            push_decimal(&mut id, place);
            assert(id@ == normalized(keys[i as int]) + seq!['_'] + decimal(place as nat));
        }
        assert(clash == collides(keys, i as int));
        ids.push(id);
        i += 1;
    }
    ids
}

} // verus!
