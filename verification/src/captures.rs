//! Named captures: a map from capture names to captured text, kept as a list of
//! `(name, text)` pairs in increasing name order, as an ordered map iterates.
use vstd::prelude::*;

verus! {

/// The captures of a match, as `(name, text)` pairs.
pub type CaptureList = Seq<(Seq<char>, Seq<char>)>;

/// Strict lexicographic order on texts by code point, which is the order of
/// `String`'s `Ord` (UTF-8 preserves the order of code points).
pub open spec fn text_less(a: Seq<char>, b: Seq<char>) -> bool
    decreases a.len(),
{
    if a.len() == 0 {
        b.len() > 0
    } else if b.len() == 0 {
        false
    } else if a[0] != b[0] {
        a[0] < b[0]
    } else {
        text_less(a.drop_first(), b.drop_first())
    }
}

/// Inserting `name -> value` into an ordered capture list: the entry for `name`
/// is replaced when there is one, and otherwise added in front of the first
/// entry whose name is not smaller.
pub open spec fn capture_insert(caps: CaptureList, name: Seq<char>, value: Seq<char>) -> CaptureList
    decreases caps.len(),
{
    if caps.len() == 0 {
        seq![(name, value)]
    } else if text_less(caps[0].0, name) {
        seq![caps[0]] + capture_insert(caps.drop_first(), name, value)
    } else if caps[0].0 == name {
        seq![(name, value)] + caps.drop_first()
    } else {
        seq![(name, value)] + caps
    }
}

/// The text captured under `name`, if any.
pub open spec fn capture_lookup(caps: CaptureList, name: Seq<char>) -> Option<Seq<char>>
    decreases caps.len(),
{
    if caps.len() == 0 {
        None
    } else if caps[0].0 == name {
        Some(caps[0].1)
    } else {
        capture_lookup(caps.drop_first(), name)
    }
}

/// Names strictly increase along the list (so no name occurs twice).
pub open spec fn captures_sorted(caps: CaptureList) -> bool {
    forall|i: int, j: int| 0 <= i < j < caps.len() ==> text_less(#[trigger] caps[i].0, #[trigger] caps[j].0)
}

/// The abstract value of an executable capture list.
pub open spec fn captures_view(caps: Seq<(Vec<char>, Vec<char>)>) -> CaptureList {
    caps.map_values(|p: (Vec<char>, Vec<char>)| (p.0@, p.1@))
}

/// No text is smaller than itself.
pub proof fn lemma_text_less_irreflexive(a: Seq<char>)
    ensures
        !text_less(a, a),
    decreases a.len(),
{
    if a.len() > 0 {
        lemma_text_less_irreflexive(a.drop_first());
    }
}

/// The order is asymmetric.
pub proof fn lemma_text_less_asymmetric(a: Seq<char>, b: Seq<char>)
    ensures
        !(text_less(a, b) && text_less(b, a)),
    decreases a.len(),
{
    if a.len() > 0 && b.len() > 0 && a[0] == b[0] {
        lemma_text_less_asymmetric(a.drop_first(), b.drop_first());
    }
}

/// The order is total on distinct texts.
pub proof fn lemma_text_less_total(a: Seq<char>, b: Seq<char>)
    ensures
        a != b ==> text_less(a, b) || text_less(b, a),
    decreases a.len(),
{
    if a.len() > 0 && b.len() > 0 && a[0] == b[0] {
        lemma_text_less_total(a.drop_first(), b.drop_first());
        if a.drop_first() == b.drop_first() {
            assert(a =~= seq![a[0]] + a.drop_first());
            assert(b =~= seq![b[0]] + b.drop_first());
        }
    } else if a.len() == 0 && b.len() == 0 {
        assert(a =~= b);
    }
}

/// The order is transitive.
pub proof fn lemma_text_less_transitive(a: Seq<char>, b: Seq<char>, c: Seq<char>)
    requires
        text_less(a, b),
        text_less(b, c),
    ensures
        text_less(a, c),
    decreases a.len(),
{
    if a.len() > 0 && b.len() > 0 && c.len() > 0 && a[0] == b[0] && b[0] == c[0] {
        lemma_text_less_transitive(a.drop_first(), b.drop_first(), c.drop_first());
    }
}

/// After inserting `name -> value`, looking up `name` gives `value`, and every
/// other name keeps what it had.
pub proof fn lemma_capture_insert_lookup(caps: CaptureList, name: Seq<char>, value: Seq<char>, other: Seq<char>)
    ensures
        capture_lookup(capture_insert(caps, name, value), name) == Some(value),
        other != name ==> capture_lookup(capture_insert(caps, name, value), other)
            == capture_lookup(caps, other),
    decreases caps.len(),
{
    let ins = capture_insert(caps, name, value);
    if caps.len() == 0 {
        assert(ins.drop_first() =~= Seq::<(Seq<char>, Seq<char>)>::empty());
        assert(capture_lookup(ins.drop_first(), other) == None::<Seq<char>>);
    } else if text_less(caps[0].0, name) {
        lemma_text_less_irreflexive(name);
        lemma_capture_insert_lookup(caps.drop_first(), name, value, other);
        assert(ins.drop_first() =~= capture_insert(caps.drop_first(), name, value));
    } else if caps[0].0 == name {
        assert(ins.drop_first() =~= caps.drop_first());
        if other != name {
            assert(capture_lookup(caps, other) == capture_lookup(caps.drop_first(), other));
        }
    } else {
        assert(ins.drop_first() =~= caps);
    }
}

/// The names of the list after an insertion are those before it and `name`.
proof fn lemma_capture_insert_names(caps: CaptureList, name: Seq<char>, value: Seq<char>)
    ensures
        forall|i: int| 0 <= i < capture_insert(caps, name, value).len() ==> {
            ||| capture_insert(caps, name, value)[i].0 == name
            ||| exists|j: int| 0 <= j < caps.len() && #[trigger] caps[j].0 == capture_insert(caps, name, value)[i].0
        },
    decreases caps.len(),
{
    let ins = capture_insert(caps, name, value);
    if caps.len() > 0 {
        if text_less(caps[0].0, name) {
            lemma_capture_insert_names(caps.drop_first(), name, value);
            let rest = capture_insert(caps.drop_first(), name, value);
            assert forall|i: int| 0 <= i < ins.len() implies {
                ||| ins[i].0 == name
                ||| exists|j: int| 0 <= j < caps.len() && #[trigger] caps[j].0 == ins[i].0
            } by {
                if i == 0 {
                    assert(caps[0].0 == ins[i].0);
                } else {
                    assert(ins[i] == rest[i - 1]);
                    if rest[i - 1].0 != name {
                        let j = choose|j: int| 0 <= j < caps.drop_first().len() && #[trigger] caps.drop_first()[j].0 == rest[i - 1].0;
                        assert(caps[j + 1].0 == ins[i].0);
                    }
                }
            }
        } else if caps[0].0 == name {
            assert forall|i: int| 0 <= i < ins.len() implies {
                ||| ins[i].0 == name
                ||| exists|j: int| 0 <= j < caps.len() && #[trigger] caps[j].0 == ins[i].0
            } by {
                if i > 0 {
                    assert(caps[i].0 == ins[i].0);
                }
            }
        } else {
            assert forall|i: int| 0 <= i < ins.len() implies {
                ||| ins[i].0 == name
                ||| exists|j: int| 0 <= j < caps.len() && #[trigger] caps[j].0 == ins[i].0
            } by {
                if i > 0 {
                    assert(caps[i - 1].0 == ins[i].0);
                }
            }
        }
    }
}

/// Insertion keeps a capture list ordered by name, without repeated names.
pub proof fn lemma_capture_insert_sorted(caps: CaptureList, name: Seq<char>, value: Seq<char>)
    requires
        captures_sorted(caps),
    ensures
        captures_sorted(capture_insert(caps, name, value)),
    decreases caps.len(),
{
    let ins = capture_insert(caps, name, value);
    if caps.len() > 0 {
        if text_less(caps[0].0, name) {
            let rest = capture_insert(caps.drop_first(), name, value);
            assert(captures_sorted(caps.drop_first())) by {
                assert forall|i: int, j: int| 0 <= i < j < caps.drop_first().len() implies text_less(
                    #[trigger] caps.drop_first()[i].0,
                    #[trigger] caps.drop_first()[j].0,
                ) by {
                    assert(caps.drop_first()[i] == caps[i + 1]);
                    assert(caps.drop_first()[j] == caps[j + 1]);
                }
            }
            lemma_capture_insert_sorted(caps.drop_first(), name, value);
            lemma_capture_insert_names(caps.drop_first(), name, value);
            assert forall|i: int, j: int| 0 <= i < j < ins.len() implies text_less(
                #[trigger] ins[i].0,
                #[trigger] ins[j].0,
            ) by {
                assert(ins[j] == rest[j - 1]);
                if i == 0 {
                    if rest[j - 1].0 != name {
                        let k = choose|k: int| 0 <= k < caps.drop_first().len() && #[trigger] caps.drop_first()[k].0 == rest[j - 1].0;
                        assert(caps[k + 1].0 == rest[j - 1].0);
                    }
                } else {
                    assert(ins[i] == rest[i - 1]);
                }
            }
        } else if caps[0].0 == name {
            assert forall|i: int, j: int| 0 <= i < j < ins.len() implies text_less(
                #[trigger] ins[i].0,
                #[trigger] ins[j].0,
            ) by {
                assert(ins[j].0 == caps[j].0);
                assert(ins[i].0 == caps[i].0);
            }
        } else {
            lemma_text_less_total(caps[0].0, name);
            assert forall|i: int, j: int| 0 <= i < j < ins.len() implies text_less(
                #[trigger] ins[i].0,
                #[trigger] ins[j].0,
            ) by {
                assert(ins[j] == caps[j - 1]);
                if i == 0 {
                    if j - 1 > 0 {
                        lemma_text_less_transitive(name, caps[0].0, caps[j - 1].0);
                    }
                } else {
                    assert(ins[i] == caps[i - 1]);
                }
            }
        }
    }
}

/// Whether `a` comes strictly before `b`.
pub(crate) fn text_less_exec(a: &Vec<char>, b: &Vec<char>) -> (r: bool)
    ensures
        r == text_less(a@, b@),
{
    let mut i: usize = 0;
    assert(a@.skip(0) =~= a@);
    assert(b@.skip(0) =~= b@);
    while i < a.len() && i < b.len() && a[i] == b[i]
        invariant
            i <= a.len(),
            i <= b.len(),
            text_less(a@, b@) == text_less(a@.skip(i as int), b@.skip(i as int)),
        decreases a.len() - i,
    {
        assert(a@.skip(i as int).drop_first() =~= a@.skip(i + 1));
        assert(b@.skip(i as int).drop_first() =~= b@.skip(i + 1));
        i = i + 1;
    }
    if i == a.len() {
        i < b.len()
    } else if i == b.len() {
        false
    } else {
        a[i] < b[i]
    }
}

/// Whether `a` and `b` hold the same characters.
pub(crate) fn same_text(a: &Vec<char>, b: &Vec<char>) -> (r: bool)
    ensures
        r == (a@ == b@),
{
    if a.len() != b.len() {
        return false;
    }
    let mut i: usize = 0;
    while i < a.len()
        invariant
            i <= a.len() == b.len(),
            forall|j: int| 0 <= j < i ==> a@[j] == b@[j],
        decreases a.len() - i,
    {
        if a[i] != b[i] {
            return false;
        }
        i = i + 1;
    }
    assert(a@ =~= b@);
    true
}

/// Where an insertion scan stops, the insertion is the list up to there followed
/// by the new entry in place of, or in front of, the entry found there.
proof fn lemma_capture_insert_at(caps: CaptureList, name: Seq<char>, value: Seq<char>, i: int)
    requires
        0 <= i <= caps.len(),
        forall|j: int| 0 <= j < i ==> text_less(#[trigger] caps[j].0, name),
        i < caps.len() ==> !text_less(caps[i].0, name),
    ensures
        capture_insert(caps, name, value) == if i < caps.len() && caps[i].0 == name {
            caps.take(i) + seq![(name, value)] + caps.skip(i + 1)
        } else {
            caps.take(i) + seq![(name, value)] + caps.skip(i)
        },
    decreases i,
{
    if i == 0 {
        assert(caps.take(0) =~= Seq::<(Seq<char>, Seq<char>)>::empty());
        if caps.len() > 0 && caps[0].0 == name {
            assert(caps.skip(1) =~= caps.drop_first());
            assert(capture_insert(caps, name, value) =~= caps.take(0) + seq![(name, value)] + caps.skip(1));
        } else {
            assert(caps.skip(0) =~= caps);
            assert(capture_insert(caps, name, value) =~= caps.take(0) + seq![(name, value)] + caps.skip(0));
        }
    } else {
        let rest = caps.drop_first();
        assert forall|j: int| 0 <= j < i - 1 implies text_less(#[trigger] rest[j].0, name) by {
            assert(rest[j] == caps[j + 1]);
        }
        lemma_capture_insert_at(rest, name, value, i - 1);
        assert(text_less(caps[0].0, name));
        if i < caps.len() && caps[i].0 == name {
            assert(capture_insert(caps, name, value) =~= caps.take(i) + seq![(name, value)] + caps.skip(i + 1));
        } else {
            assert(capture_insert(caps, name, value) =~= caps.take(i) + seq![(name, value)] + caps.skip(i));
        }
    }
}

/// Records `value` as the text captured under `name`.
pub(crate) fn insert_capture(caps: &mut Vec<(Vec<char>, Vec<char>)>, name: Vec<char>, value: Vec<char>)
    ensures
        captures_view(final(caps)@) == capture_insert(captures_view(old(caps)@), name@, value@),
{
    let ghost c = captures_view(caps@);
    let mut i: usize = 0;
    while i < caps.len() && text_less_exec(&caps[i].0, &name)
        invariant
            i <= caps.len(),
            c == captures_view(caps@),
            forall|j: int| 0 <= j < i ==> text_less(#[trigger] c[j].0, name@),
        decreases caps.len() - i,
    {
        i = i + 1;
    }
    proof {
        lemma_capture_insert_at(c, name@, value@, i as int);
    }
    if i < caps.len() && same_text(&caps[i].0, &name) {
        caps.set(i, (name, value));
        assert(captures_view(caps@) =~= c.take(i as int) + seq![(name@, value@)] + c.skip(i + 1));
    } else {
        caps.insert(i, (name, value));
        assert(captures_view(caps@) =~= c.take(i as int) + seq![(name@, value@)] + c.skip(i as int));
    }
}

/// The text captured under `name`, if any.
pub(crate) fn capture_get<'a>(caps: &'a Vec<(Vec<char>, Vec<char>)>, name: &Vec<char>) -> (r: Option<&'a Vec<char>>)
    ensures
        match capture_lookup(captures_view(caps@), name@) {
            None => r is None,
            Some(v) => r matches Some(t) && t@ == v,
        },
{
    let ghost c = captures_view(caps@);
    let mut i: usize = 0;
    assert(c.skip(0) =~= c);
    while i < caps.len()
        invariant
            i <= caps.len(),
            c == captures_view(caps@),
            capture_lookup(c.skip(i as int), name@) == capture_lookup(c, name@),
        decreases caps.len() - i,
    {
        assert(c.skip(i as int)[0] == c[i as int]);
        assert(c.skip(i as int).drop_first() =~= c.skip(i + 1));
        if same_text(&caps[i].0, name) {
            return Some(&caps[i].1);
        }
        i = i + 1;
    }
    assert(c.skip(i as int) =~= Seq::<(Seq<char>, Seq<char>)>::empty());
    None
}

} // verus!
