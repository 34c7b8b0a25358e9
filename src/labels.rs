//! Labels: their order, their canonical grouping key and their resolved mapping.

use vstd::prelude::*;
use vstd::multiset::Multiset;
use vstd::relations::{sorted_by, total_ordering};
use vstd::seq_lib::{group_to_multiset_ensures, lemma_sorted_unique};
use vstd::pervasive::VecAdditionalExecFns;
use vstd::string::StrSliceExecFns;

verus! {

/// One label: a key and its value.
pub type Label = (String, String);

/// A label seen through the characters of its key and value.
pub type LabelView = (Seq<char>, Seq<char>);

/// The characters of each label in a list.
pub open spec fn labels_view(l: Seq<Label>) -> Seq<LabelView> {
    Seq::new(l.len(), |i: int| (l[i].0@, l[i].1@))
}

/// Lexicographic order on strings, character by character (code point order,
/// which is the byte order of their UTF-8 encodings).
pub open spec fn str_leq(a: Seq<char>, b: Seq<char>) -> bool
    decreases a.len(),
{
    if a.len() == 0 {
        true
    } else if b.len() == 0 {
        false
    } else if a[0] != b[0] {
        (a[0] as int) < (b[0] as int)
    } else {
        str_leq(a.drop_first(), b.drop_first())
    }
}

/// Labels ordered by key, then by value.
pub open spec fn label_leq(x: LabelView, y: LabelView) -> bool {
    if x.0 == y.0 {
        str_leq(x.1, y.1)
    } else {
        str_leq(x.0, y.0)
    }
}

/// `label_leq` as a relation.
pub open spec fn label_order() -> spec_fn(LabelView, LabelView) -> bool {
    |x: LabelView, y: LabelView| label_leq(x, y)
}

/// The canonical order of a label list: sorted by key, then by value.
pub open spec fn sorted_labels(l: Seq<LabelView>) -> Seq<LabelView> {
    l.sort_by(label_order())
}

proof fn lemma_str_leq_reflexive(a: Seq<char>)
    ensures
        str_leq(a, a),
    decreases a.len(),
{
    if a.len() > 0 {
        lemma_str_leq_reflexive(a.drop_first());
    }
}

proof fn lemma_str_leq_antisymmetric(a: Seq<char>, b: Seq<char>)
    requires
        str_leq(a, b),
        str_leq(b, a),
    ensures
        a == b,
    decreases a.len(),
{
    if a.len() > 0 && b.len() > 0 {
        if a[0] == b[0] {
            lemma_str_leq_antisymmetric(a.drop_first(), b.drop_first());
            assert(a =~= seq![a[0]] + a.drop_first());
            assert(b =~= seq![b[0]] + b.drop_first());
        }
    }
}

proof fn lemma_str_leq_transitive(a: Seq<char>, b: Seq<char>, c: Seq<char>)
    requires
        str_leq(a, b),
        str_leq(b, c),
    ensures
        str_leq(a, c),
    decreases a.len(),
{
    if a.len() > 0 && b.len() > 0 && c.len() > 0 {
        if a[0] == b[0] && b[0] == c[0] {
            lemma_str_leq_transitive(a.drop_first(), b.drop_first(), c.drop_first());
        }
    }
}

proof fn lemma_str_leq_total(a: Seq<char>, b: Seq<char>)
    ensures
        str_leq(a, b) || str_leq(b, a),
    decreases a.len(),
{
    if a.len() > 0 && b.len() > 0 {
        if a[0] == b[0] {
            lemma_str_leq_total(a.drop_first(), b.drop_first());
        } else {
            assert((a[0] as int) != (b[0] as int));
        }
    }
}

/// The label order is a total order.
pub proof fn lemma_label_leq_total_ordering()
    ensures
        total_ordering(label_order()),
{
    assert forall|x: LabelView| #[trigger] label_leq(x, x) by {
        lemma_str_leq_reflexive(x.1);
    }
    assert forall|x: LabelView, y: LabelView|
        #[trigger] label_leq(x, y) && #[trigger] label_leq(y, x) implies x == y by {
        if x.0 == y.0 {
            lemma_str_leq_antisymmetric(x.1, y.1);
        } else {
            lemma_str_leq_antisymmetric(x.0, y.0);
        }
    }
    assert forall|x: LabelView, y: LabelView, z: LabelView|
        #[trigger] label_leq(x, y) && #[trigger] label_leq(y, z) implies label_leq(x, z) by {
        if x.0 == y.0 && y.0 == z.0 {
            lemma_str_leq_transitive(x.1, y.1, z.1);
        } else if x.0 == y.0 {
        } else if y.0 == z.0 {
        } else {
            lemma_str_leq_transitive(x.0, y.0, z.0);
            if x.0 == z.0 {
                lemma_str_leq_antisymmetric(x.0, y.0);
            }
        }
    }
    assert forall|x: LabelView, y: LabelView|
        #[trigger] label_leq(x, y) || #[trigger] label_leq(y, x) by {
        lemma_str_leq_total(x.0, y.0);
        lemma_str_leq_total(x.1, y.1);
    }
}

/// Compares two strings in the order of `str_leq`.
pub fn str_le(a: &str, b: &str) -> (r: bool)
    ensures
        r == str_leq(a@, b@),
{
    let la = a.unicode_len();
    let lb = b.unicode_len();
    let mut i: usize = 0;
    assert(a@.subrange(0, la as int) =~= a@);
    assert(b@.subrange(0, lb as int) =~= b@);
    while i < la && i < lb
        invariant
            la == a@.len(),
            lb == b@.len(),
            i <= la,
            i <= lb,
            str_leq(a@, b@) == str_leq(a@.subrange(i as int, la as int), b@.subrange(i as int, lb as int)),
        decreases la - i,
    {
        let ca = a.get_char(i);
        let cb = b.get_char(i);
        let ghost sa = a@.subrange(i as int, la as int);
        let ghost sb = b@.subrange(i as int, lb as int);
        if ca != cb {
            return (ca as u32) < (cb as u32);
        }
        assert(sa.drop_first() =~= a@.subrange(i + 1, la as int));
        assert(sb.drop_first() =~= b@.subrange(i + 1, lb as int));
        i = i + 1;
    }
    i == la
}

/// Compares two labels in the order of `label_leq`.
pub fn label_le(x: &Label, y: &Label) -> (r: bool)
    ensures
        r == label_leq((x.0@, x.1@), (y.0@, y.1@)),
{
    if x.0 == y.0 {
        str_le(&x.1, &y.1)
    } else {
        str_le(&x.0, &y.0)
    }
}

/// Sorts a label list into its canonical order: by key, then by value.
pub fn sort_labels(labels: Vec<Label>) -> (r: Vec<Label>)
    ensures
        labels_view(r@) == sorted_labels(labels_view(labels@)),
{
    broadcast use group_to_multiset_ensures;
    broadcast use vstd::multiset::group_multiset_axioms;

    let ghost leq = label_order();
    proof {
        lemma_label_leq_total_ordering();
    }
    let ghost orig = labels_view(labels@);
    let mut rest = labels;
    let mut out: Vec<Label> = Vec::new();
    assert(labels_view(out@).to_multiset() =~= Multiset::empty());
    while rest.len() > 0
        invariant
            total_ordering(leq),
            leq == label_order(),
            sorted_by(labels_view(out@), leq),
            labels_view(out@).to_multiset().add(labels_view(rest@).to_multiset()) =~= orig.to_multiset(),
        decreases rest.len(),
    {
        let ghost rest_before = labels_view(rest@);
        let x = rest.pop().unwrap();
        let ghost xv = (x.0@, x.1@);
        assert(rest_before =~= labels_view(rest@).push(xv));
        let ghost outv = labels_view(out@);
        let mut i: usize = 0;
        let mut scanning = true;
        while scanning && i < out.len()
            invariant
                total_ordering(leq),
                leq == label_order(),
                xv == (x.0@, x.1@),
                outv == labels_view(out@),
                i <= out.len(),
                forall|j: int| 0 <= j < i ==> leq(outv[j], xv),
                !scanning ==> i < out.len() && !leq(outv[i as int], xv),
            decreases out.len() - i + (if scanning { 1int } else { 0 }),
        {
            if label_le(&out[i], &x) {
                i = i + 1;
            } else {
                scanning = false;
            }
        }
        out.insert(i, x);
        proof {
            let newv = labels_view(out@);
            assert(newv =~= outv.insert(i as int, xv));
            vstd::seq_lib::to_multiset_insert(outv, i as int, xv);
            vstd::seq_lib::to_multiset_build(labels_view(rest@), xv);
            assert forall|a: int, b: int| 0 <= a < b < newv.len() implies #[trigger] leq(newv[a], newv[b]) by {
                if b < i {
                } else if a < i && b == i {
                } else if a < i {
                    assert(leq(outv[a], outv[b - 1]));
                } else if a == i {
                    assert(!leq(outv[i as int], xv));
                    assert(leq(outv[i as int], xv) || leq(xv, outv[i as int]));
                    if b - 1 > i {
                        assert(leq(outv[i as int], outv[b - 1]));
                    }
                } else {
                    assert(leq(outv[a - 1], outv[b - 1]));
                }
            }
        }
    }
    proof {
        orig.lemma_sort_by_ensures(leq);
        assert(labels_view(rest@) =~= Seq::<LabelView>::empty());
        assert(labels_view(rest@).to_multiset() =~= Multiset::empty());
        assert(labels_view(out@).to_multiset() =~= orig.to_multiset());
        lemma_sorted_unique(labels_view(out@), sorted_labels(orig), leq);
    }
    out
}

/// The escaped form of one character: a backslash or a comma gets a
/// backslash before it.
pub open spec fn escape_char(c: char) -> Seq<char> {
    if c == '\\' {
        seq!['\\', '\\']
    } else if c == ',' {
        seq!['\\', ',']
    } else {
        seq![c]
    }
}

/// The escaped form of a string, character by character.
pub open spec fn escape(s: Seq<char>) -> Seq<char>
    decreases s.len(),
{
    if s.len() == 0 {
        Seq::empty()
    } else {
        escape_char(s[0]) + escape(s.drop_first())
    }
}

/// A string escaped and terminated by an unescaped comma.
pub open spec fn token(s: Seq<char>) -> Seq<char> {
    escape(s).push(',')
}

/// The key and the value of each label, in order, each as a token:
/// `k1,v1,k2,v2,` with commas and backslashes in keys and values escaped.
pub open spec fn key_of(l: Seq<LabelView>) -> Seq<char>
    decreases l.len(),
{
    if l.len() == 0 {
        Seq::empty()
    } else {
        token(l[0].0) + token(l[0].1) + key_of(l.drop_first())
    }
}

/// The grouping key of a label list: the tokens of its labels in canonical order.
pub open spec fn stream_key(l: Seq<LabelView>) -> Seq<char> {
    key_of(sorted_labels(l))
}

proof fn lemma_escape_push(s: Seq<char>, c: char)
    ensures
        escape(s.push(c)) == escape(s) + escape_char(c),
    decreases s.len(),
{
    if s.len() == 0 {
        assert(s.push(c).drop_first() =~= Seq::<char>::empty());
        assert(s.push(c)[0] == c);
        assert(escape(s.push(c)) == escape_char(c) + escape(Seq::<char>::empty()));
        assert(escape(s.push(c)) =~= escape(s) + escape_char(c));
    } else {
        lemma_escape_push(s.drop_first(), c);
        assert(s.push(c).drop_first() =~= s.drop_first().push(c));
        assert(s.push(c)[0] == s[0]);
        assert(escape(s.push(c)) == escape_char(s[0]) + escape(s.drop_first().push(c)));
        assert(escape(s.push(c)) =~= escape(s) + escape_char(c));
    }
}

proof fn lemma_key_push(l: Seq<LabelView>, p: LabelView)
    ensures
        key_of(l.push(p)) == key_of(l) + token(p.0) + token(p.1),
    decreases l.len(),
{
    if l.len() == 0 {
        assert(l.push(p).drop_first() =~= Seq::<LabelView>::empty());
        assert(l.push(p)[0] == p);
        assert(key_of(l.push(p)) == token(p.0) + token(p.1) + key_of(Seq::<LabelView>::empty()));
        assert(key_of(l.push(p)) =~= key_of(l) + token(p.0) + token(p.1));
    } else {
        lemma_key_push(l.drop_first(), p);
        assert(l.push(p).drop_first() =~= l.drop_first().push(p));
        assert(l.push(p)[0] == l[0]);
        assert(key_of(l.push(p)) == token(l[0].0) + token(l[0].1) + key_of(l.drop_first().push(p)));
        assert(key_of(l.push(p)) =~= key_of(l) + token(p.0) + token(p.1));
    }
}

/// A token ends where its string ends: what precedes and what follows it
/// are both determined.
proof fn lemma_token_injective(s1: Seq<char>, r1: Seq<char>, s2: Seq<char>, r2: Seq<char>)
    requires
        token(s1) + r1 == token(s2) + r2,
    ensures
        s1 == s2,
        r1 == r2,
    decreases s1.len() + s2.len(),
{
    let x = token(s1) + r1;
    if s1.len() == 0 && s2.len() == 0 {
        assert(token(s1) =~= seq![',']);
        assert(token(s2) =~= seq![',']);
        assert(r1 =~= x.drop_first());
        assert(r2 =~= x.drop_first());
    } else if s1.len() == 0 {
        assert(token(s1) =~= seq![',']);
        assert(x[0] == ',');
        assert(token(s2) + r2 =~= escape_char(s2[0]) + (token(s2.drop_first()) + r2));
        assert(x[0] == escape_char(s2[0])[0]);
    } else if s2.len() == 0 {
        assert(token(s2) =~= seq![',']);
        assert(x[0] == ',');
        assert(token(s1) + r1 =~= escape_char(s1[0]) + (token(s1.drop_first()) + r1));
        assert(x[0] == escape_char(s1[0])[0]);
    } else {
        let e1 = escape_char(s1[0]);
        let e2 = escape_char(s2[0]);
        let y1 = token(s1.drop_first()) + r1;
        let y2 = token(s2.drop_first()) + r2;
        assert(x =~= e1 + y1);
        assert(x =~= e2 + y2);
        assert(x[0] == e1[0]);
        assert(x[0] == e2[0]);
        if e1.len() == 2 {
            assert(x[1] == e1[1]);
            assert(x[1] == e2[1]);
        }
        if e2.len() == 2 {
            assert(x[1] == e1[1]);
        }
        assert(s1[0] == s2[0]);
        assert(y1 =~= x.subrange(e1.len() as int, x.len() as int));
        assert(y2 =~= x.subrange(e2.len() as int, x.len() as int));
        lemma_token_injective(s1.drop_first(), r1, s2.drop_first(), r2);
        assert(s1 =~= seq![s1[0]] + s1.drop_first());
        assert(s2 =~= seq![s2[0]] + s2.drop_first());
    }
}

/// Distinct label lists have distinct token sequences.
pub proof fn lemma_key_injective(a: Seq<LabelView>, b: Seq<LabelView>)
    requires
        key_of(a) == key_of(b),
    ensures
        a == b,
    decreases a.len(),
{
    if a.len() == 0 && b.len() == 0 {
        assert(a =~= b);
    } else if a.len() == 0 {
        assert(key_of(b).len() > 0);
    } else if b.len() == 0 {
        assert(key_of(a).len() > 0);
    } else {
        let ra = token(a[0].1) + key_of(a.drop_first());
        let rb = token(b[0].1) + key_of(b.drop_first());
        assert(key_of(a) =~= token(a[0].0) + ra);
        assert(key_of(b) =~= token(b[0].0) + rb);
        lemma_token_injective(a[0].0, ra, b[0].0, rb);
        lemma_token_injective(a[0].1, key_of(a.drop_first()), b[0].1, key_of(b.drop_first()));
        lemma_key_injective(a.drop_first(), b.drop_first());
        assert(a =~= seq![a[0]] + a.drop_first());
        assert(b =~= seq![b[0]] + b.drop_first());
    }
}

/// Appends `token(s@)` to `out`.
fn push_token(out: &mut String, s: &str)
    ensures
        final(out)@ == old(out)@ + token(s@),
{
    let ghost start = out@;
    let n = s.unicode_len();
    let mut i: usize = 0;
    assert(s@.subrange(0, 0) =~= Seq::<char>::empty());
    assert(out@ =~= start + escape(Seq::<char>::empty()));
    while i < n
        invariant
            n == s@.len(),
            i <= n,
            out@ == start + escape(s@.subrange(0, i as int)),
        decreases n - i,
    {
        let c = s.get_char(i);
        proof {
            lemma_escape_push(s@.subrange(0, i as int), c);
            assert(s@.subrange(0, i + 1) =~= s@.subrange(0, i as int).push(c));
        }
        if c == '\\' {
            proof {
                reveal_strlit("\\\\");
            }
            out.append("\\\\");
        } else if c == ',' {
            proof {
                reveal_strlit("\\,");
            }
            out.append("\\,");
        } else {
            let one = s.substring_char(i, i + 1);
            assert(one@ =~= seq![c]);
            out.append(one);
        }
        assert(out@ =~= start + escape(s@.subrange(0, i + 1)));
        i = i + 1;
    }
    proof {
        reveal_strlit(",");
    }
    out.append(",");
    assert(s@.subrange(0, n as int) =~= s@);
    assert(out@ =~= start + token(s@));
}

/// The grouping key of a label list already in canonical order.
pub fn canonical_key(sorted: &Vec<Label>) -> (r: String)
    ensures
        r@ == key_of(labels_view(sorted@)),
{
    let mut out = String::new();
    let mut i: usize = 0;
    assert(labels_view(sorted@).subrange(0, 0) =~= Seq::<LabelView>::empty());
    while i < sorted.len()
        invariant
            i <= sorted.len(),
            out@ == key_of(labels_view(sorted@).subrange(0, i as int)),
        decreases sorted.len() - i,
    {
        let ghost lv = labels_view(sorted@);
        proof {
            lemma_key_push(lv.subrange(0, i as int), lv[i as int]);
            assert(lv.subrange(0, i + 1) =~= lv.subrange(0, i as int).push(lv[i as int]));
        }
        push_token(&mut out, sorted[i].0.as_str());
        push_token(&mut out, sorted[i].1.as_str());
        assert(out@ =~= key_of(lv.subrange(0, i + 1)));
        i = i + 1;
    }
    assert(labels_view(sorted@).subrange(0, sorted.len() as int) =~= labels_view(sorted@));
    out
}

/// Two label lists have the same grouping key exactly when they have the
/// same canonical order: escaping keeps distinct lists apart.
pub proof fn lemma_stream_key_injective(a: Seq<LabelView>, b: Seq<LabelView>)
    ensures
        stream_key(a) == stream_key(b) <==> sorted_labels(a) == sorted_labels(b),
{
    if stream_key(a) == stream_key(b) {
        lemma_key_injective(sorted_labels(a), sorted_labels(b));
    }
}

/// Label lists that hold the same labels, in any order, have the same
/// grouping key.
pub proof fn lemma_same_labels_same_key(a: Seq<LabelView>, b: Seq<LabelView>)
    requires
        a.to_multiset() == b.to_multiset(),
    ensures
        stream_key(a) == stream_key(b),
{
    lemma_label_leq_total_ordering();
    a.lemma_sort_by_ensures(label_order());
    b.lemma_sort_by_ensures(label_order());
    lemma_sorted_unique(sorted_labels(a), sorted_labels(b), label_order());
}

/// Label lists that do not hold the same labels have distinct grouping keys.
pub proof fn lemma_distinct_labels_distinct_key(a: Seq<LabelView>, b: Seq<LabelView>)
    requires
        a.to_multiset() != b.to_multiset(),
    ensures
        stream_key(a) != stream_key(b),
{
    lemma_label_leq_total_ordering();
    a.lemma_sort_by_ensures(label_order());
    b.lemma_sort_by_ensures(label_order());
    if stream_key(a) == stream_key(b) {
        lemma_key_injective(sorted_labels(a), sorted_labels(b));
    }
}

/// No key occurs twice in the list.
pub open spec fn keys_unique(l: Seq<LabelView>) -> bool {
    forall|i: int, j: int| 0 <= i < j < l.len() ==> #[trigger] l[i].0 != #[trigger] l[j].0
}

/// The mapping that inserting the labels in order gives: for a repeated key
/// the last value wins.
pub open spec fn label_map(l: Seq<LabelView>) -> Map<Seq<char>, Seq<char>>
    decreases l.len(),
{
    if l.len() == 0 {
        Map::empty()
    } else {
        label_map(l.drop_last()).insert(l.last().0, l.last().1)
    }
}

/// The list with each key once, where the first occurrence of a key stands,
/// holding the last value given for it.
pub open spec fn resolved(l: Seq<LabelView>) -> Seq<LabelView>
    decreases l.len(),
{
    if l.len() == 0 {
        Seq::empty()
    } else {
        let d = resolved(l.drop_last());
        let k = l.last().0;
        if exists|i: int| 0 <= i < d.len() && d[i].0 == k {
            let i = choose|i: int| 0 <= i < d.len() && d[i].0 == k;
            d.update(i, (k, l.last().1))
        } else {
            d.push(l.last())
        }
    }
}

/// Label lists without repeated keys that hold the same set of labels have
/// the same grouping key.
pub proof fn lemma_same_label_set_same_key(a: Seq<LabelView>, b: Seq<LabelView>)
    requires
        keys_unique(a),
        keys_unique(b),
        a.to_set() == b.to_set(),
    ensures
        stream_key(a) == stream_key(b),
{
    broadcast use group_to_multiset_ensures;

    assert(a.no_duplicates()) by {
        assert forall|i: int, j: int| 0 <= i < a.len() && 0 <= j < a.len() && i != j implies a[i] != a[j] by {
            if i < j {
                assert(a[i].0 != a[j].0);
            } else {
                assert(a[j].0 != a[i].0);
            }
        }
    }
    assert(b.no_duplicates()) by {
        assert forall|i: int, j: int| 0 <= i < b.len() && 0 <= j < b.len() && i != j implies b[i] != b[j] by {
            if i < j {
                assert(b[i].0 != b[j].0);
            } else {
                assert(b[j].0 != b[i].0);
            }
        }
    }
    a.lemma_multiset_has_no_duplicates();
    b.lemma_multiset_has_no_duplicates();
    assert forall|x: LabelView| a.to_multiset().count(x) == b.to_multiset().count(x) by {
        assert(a.to_set().contains(x) == a.contains(x));
        assert(b.to_set().contains(x) == b.contains(x));
    }
    assert(a.to_multiset() =~= b.to_multiset());
    lemma_same_labels_same_key(a, b);
}

proof fn lemma_label_map_update(l: Seq<LabelView>, j: int, v: Seq<char>)
    requires
        keys_unique(l),
        0 <= j < l.len(),
    ensures
        label_map(l.update(j, (l[j].0, v))) == label_map(l).insert(l[j].0, v),
    decreases l.len(),
{
    let u = l.update(j, (l[j].0, v));
    if j == l.len() - 1 {
        assert(u.drop_last() =~= l.drop_last());
        assert(label_map(u) =~= label_map(l).insert(l[j].0, v));
    } else {
        assert(u.drop_last() =~= l.drop_last().update(j, (l[j].0, v)));
        lemma_label_map_update(l.drop_last(), j, v);
        assert(l.last().0 != l[j].0);
        assert(label_map(u) =~= label_map(l).insert(l[j].0, v));
    }
}

/// The labels of a list with each key once, holding the value that
/// inserting the list in order leaves under it.
pub fn resolve_labels(labels: &Vec<Label>) -> (r: Vec<Label>)
    ensures
        keys_unique(labels_view(r@)),
        label_map(labels_view(r@)) == label_map(labels_view(labels@)),
        labels_view(r@) == resolved(labels_view(labels@)),
{
    let ghost lv = labels_view(labels@);
    let mut out: Vec<Label> = Vec::new();
    let mut i: usize = 0;
    assert(lv.subrange(0, 0) =~= Seq::<LabelView>::empty());
    assert(label_map(labels_view(out@)) =~= Map::empty());
    assert(labels_view(out@) =~= resolved(Seq::<LabelView>::empty()));
    while i < labels.len()
        invariant
            lv == labels_view(labels@),
            i <= labels.len(),
            keys_unique(labels_view(out@)),
            label_map(labels_view(out@)) == label_map(lv.subrange(0, i as int)),
            labels_view(out@) == resolved(lv.subrange(0, i as int)),
        decreases labels.len() - i,
    {
        let ghost ov = labels_view(out@);
        let mut j: usize = 0;
        let mut found = false;
        while !found && j < out.len()
            invariant
                i < labels.len(),
                ov == labels_view(out@),
                j <= out.len(),
                forall|m: int| 0 <= m < j ==> ov[m].0 != labels@[i as int].0@,
                found ==> j < out.len() && ov[j as int].0 == labels@[i as int].0@,
            decreases out.len() - j + (if found { 0int } else { 1 }),
        {
            if out[j].0 == labels[i].0 {
                found = true;
            } else {
                j = j + 1;
            }
        }
        let k = labels[i].0.clone();
        let v = labels[i].1.clone();
        assert(lv.subrange(0, i + 1).drop_last() =~= lv.subrange(0, i as int));
        if found {
            proof {
                lemma_label_map_update(ov, j as int, v@);
            }
            out.set(j, (k, v));
            assert(labels_view(out@) =~= ov.update(j as int, (ov[j as int].0, v@)));
            proof {
                let pre = lv.subrange(0, i + 1);
                assert(pre.last() == (k@, v@));
                let c = choose|c: int| 0 <= c < ov.len() && ov[c].0 == k@;
                if c != j {
                    if c < j {
                        assert(ov[c].0 != ov[j as int].0);
                    } else {
                        assert(ov[j as int].0 != ov[c].0);
                    }
                }
                assert(labels_view(out@) =~= resolved(pre));
            }
        } else {
            out.push((k, v));
            assert(labels_view(out@) =~= ov.push((k@, v@)));
            assert(labels_view(out@).drop_last() =~= ov);
            proof {
                let pre = lv.subrange(0, i + 1);
                assert(pre.last() == (k@, v@));
                assert(!(exists|c: int| 0 <= c < ov.len() && ov[c].0 == k@));
                assert(labels_view(out@) =~= resolved(pre));
            }
        }
        i = i + 1;
    }
    assert(lv.subrange(0, labels.len() as int) =~= lv);
    out
}

} // verus!
