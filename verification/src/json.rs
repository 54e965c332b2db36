//! The JSON document tree and its mathematical model.
//!
//! A document is a tree of scalars, arrays and objects. Strings and object
//! keys are byte sequences (UTF-8 passes through untouched), numbers are
//! 64-bit signed integers. An object is an association list of bindings in
//! order; a lookup takes the first binding with the given key.

use vstd::prelude::*;

verus! {

/// The mathematical model of a document: the same tree over `Seq` and `int`.
pub enum JVal {
    Null,
    Bool(bool),
    Int(int),
    Str(Seq<u8>),
    Arr(Seq<JVal>),
    Obj(Seq<(Seq<u8>, JVal)>),
}

impl JVal {
    /// Well-formed: every number in the tree fits in a 64-bit signed integer.
    /// The model of every executable document is well-formed.
    pub open spec fn wf(self) -> bool
        decreases self,
    {
        match self {
            JVal::Null => true,
            JVal::Bool(_) => true,
            JVal::Int(i) => i64::MIN <= i <= i64::MAX,
            JVal::Str(_) => true,
            JVal::Arr(a) => JVal::wf_seq(a),
            JVal::Obj(o) => JVal::wf_pairs(o),
        }
    }

    pub open spec fn wf_seq(s: Seq<JVal>) -> bool
        decreases s,
    {
        if s.len() == 0 {
            true
        } else {
            JVal::wf_seq(s.drop_last()) && s.last().wf()
        }
    }

    pub open spec fn wf_pairs(s: Seq<(Seq<u8>, JVal)>) -> bool
        decreases s,
    {
        if s.len() == 0 {
            true
        } else {
            JVal::wf_pairs(s.drop_last()) && s.last().1.wf()
        }
    }
}

/// The value bound to `key` in an object's bindings: the first binding wins.
/// `None` when no binding carries the key.
pub open spec fn obj_get(pairs: Seq<(Seq<u8>, JVal)>, key: Seq<u8>) -> Option<JVal>
    decreases pairs,
{
    if pairs.len() == 0 {
        Option::None
    } else if pairs[0].0 == key {
        Option::Some(pairs[0].1)
    } else {
        obj_get(pairs.drop_first(), key)
    }
}

/// The bindings after `key` is set to `value`: the first binding with that
/// key is overwritten in place; when none exists the binding is appended.
pub open spec fn obj_set(
    pairs: Seq<(Seq<u8>, JVal)>,
    key: Seq<u8>,
    value: JVal,
) -> Seq<(Seq<u8>, JVal)>
    decreases pairs,
{
    if pairs.len() == 0 {
        seq![(key, value)]
    } else if pairs[0].0 == key {
        seq![(key, value)] + pairs.drop_first()
    } else {
        seq![pairs[0]] + obj_set(pairs.drop_first(), key, value)
    }
}

/// An executable JSON document.
#[derive(Debug, PartialEq, Eq)]
pub enum Json {
    Null,
    Bool(bool),
    Int(i64),
    Str(Vec<u8>),
    Arr(Vec<Json>),
    Obj(Vec<(Vec<u8>, Json)>),
}

impl Json {
    /// The model of this document.
    pub open spec fn view(self) -> JVal
        decreases self,
    {
        match self {
            Json::Null => JVal::Null,
            Json::Bool(b) => JVal::Bool(b),
            Json::Int(i) => JVal::Int(i as int),
            Json::Str(s) => JVal::Str(s@),
            Json::Arr(a) => JVal::Arr(Json::seq_view(a@)),
            Json::Obj(o) => JVal::Obj(Json::pairs_view(o@)),
        }
    }

    /// The models of the elements of an array, in order.
    pub open spec fn seq_view(s: Seq<Json>) -> Seq<JVal>
        decreases s,
    {
        if s.len() == 0 {
            Seq::empty()
        } else {
            Json::seq_view(s.drop_last()).push(s.last().view())
        }
    }

    /// The models of the bindings of an object, in order.
    pub open spec fn pairs_view(s: Seq<(Vec<u8>, Json)>) -> Seq<(Seq<u8>, JVal)>
        decreases s,
    {
        if s.len() == 0 {
            Seq::empty()
        } else {
            Json::pairs_view(s.drop_last()).push((s.last().0@, s.last().1.view()))
        }
    }
}

/// `seq_view` maps the elements one for one.
pub proof fn lemma_seq_view(s: Seq<Json>)
    ensures
        Json::seq_view(s).len() == s.len(),
        forall|i: int| 0 <= i < s.len() ==> #[trigger] Json::seq_view(s)[i] == s[i].view(),
    decreases s,
{
    if s.len() > 0 {
        lemma_seq_view(s.drop_last());
        assert forall|i: int| 0 <= i < s.len() implies #[trigger] Json::seq_view(s)[i]
            == s[i].view() by {
            if i < s.len() - 1 {
                assert(s.drop_last()[i] == s[i]);
            } else {
                assert(s[i] == s.last());
            }
        }
    }
}

/// `pairs_view` maps the bindings one for one.
pub proof fn lemma_pairs_view(s: Seq<(Vec<u8>, Json)>)
    ensures
        Json::pairs_view(s).len() == s.len(),
        forall|i: int| 0 <= i < s.len() ==> #[trigger] Json::pairs_view(s)[i] == (
            s[i].0@,
            s[i].1.view(),
        ),
    decreases s,
{
    if s.len() > 0 {
        lemma_pairs_view(s.drop_last());
        assert forall|i: int| 0 <= i < s.len() implies #[trigger] Json::pairs_view(s)[i] == (
            s[i].0@,
            s[i].1.view(),
        ) by {
            if i < s.len() - 1 {
                assert(s.drop_last()[i] == s[i]);
            } else {
                assert(s[i] == s.last());
            }
        }
    }
}

/// The model of every executable document is well-formed.
pub proof fn lemma_view_wf(j: Json)
    ensures
        j.view().wf(),
    decreases j,
{
    match j {
        Json::Arr(a) => {
            lemma_seq_view_wf(a@);
        }
        Json::Obj(o) => {
            lemma_pairs_view_wf(o@);
        }
        _ => {}
    }
}

proof fn lemma_seq_view_wf(s: Seq<Json>)
    ensures
        JVal::wf_seq(Json::seq_view(s)),
    decreases s,
{
    if s.len() > 0 {
        lemma_seq_view_wf(s.drop_last());
        lemma_view_wf(s.last());
        assert(Json::seq_view(s).drop_last() =~= Json::seq_view(s.drop_last()));
    }
}

proof fn lemma_pairs_view_wf(s: Seq<(Vec<u8>, Json)>)
    ensures
        JVal::wf_pairs(Json::pairs_view(s)),
    decreases s,
{
    if s.len() > 0 {
        lemma_pairs_view_wf(s.drop_last());
        lemma_view_wf(s.last().1);
        assert(Json::pairs_view(s).drop_last() =~= Json::pairs_view(s.drop_last()));
    }
}

/// In a well-formed sequence of elements, every element is well-formed.
pub proof fn lemma_wf_seq_all(s: Seq<JVal>)
    requires
        JVal::wf_seq(s),
    ensures
        forall|k: int| 0 <= k < s.len() ==> (#[trigger] s[k]).wf(),
    decreases s,
{
    if s.len() > 0 {
        lemma_wf_seq_all(s.drop_last());
        assert forall|k: int| 0 <= k < s.len() implies (#[trigger] s[k]).wf() by {
            if k < s.len() - 1 {
                assert(s.drop_last()[k] == s[k]);
            } else {
                assert(s[k] == s.last());
            }
        }
    }
}

/// A sequence of well-formed elements is well-formed.
pub proof fn lemma_wf_seq_from_all(s: Seq<JVal>)
    requires
        forall|k: int| 0 <= k < s.len() ==> (#[trigger] s[k]).wf(),
    ensures
        JVal::wf_seq(s),
    decreases s,
{
    if s.len() > 0 {
        assert(forall|k: int| 0 <= k < s.drop_last().len() ==> (#[trigger] s.drop_last()[k])
            == s[k]);
        lemma_wf_seq_from_all(s.drop_last());
        assert(s.last() == s[s.len() - 1]);
    }
}

/// In a well-formed sequence of bindings, every bound value is well-formed.
pub proof fn lemma_wf_pairs_all(s: Seq<(Seq<u8>, JVal)>)
    requires
        JVal::wf_pairs(s),
    ensures
        forall|k: int| 0 <= k < s.len() ==> (#[trigger] s[k]).1.wf(),
    decreases s,
{
    if s.len() > 0 {
        lemma_wf_pairs_all(s.drop_last());
        assert forall|k: int| 0 <= k < s.len() implies (#[trigger] s[k]).1.wf() by {
            if k < s.len() - 1 {
                assert(s.drop_last()[k] == s[k]);
            } else {
                assert(s[k] == s.last());
            }
        }
    }
}

/// A sequence of bindings with well-formed values is well-formed.
pub proof fn lemma_wf_pairs_from_all(s: Seq<(Seq<u8>, JVal)>)
    requires
        forall|k: int| 0 <= k < s.len() ==> (#[trigger] s[k]).1.wf(),
    ensures
        JVal::wf_pairs(s),
    decreases s,
{
    if s.len() > 0 {
        assert(forall|k: int| 0 <= k < s.drop_last().len() ==> (#[trigger] s.drop_last()[k])
            == s[k]);
        lemma_wf_pairs_from_all(s.drop_last());
        assert(s.last() == s[s.len() - 1]);
    }
}

/// The value bound to `key` at the top level of a document: `None` when the
/// root is not an object or no binding carries the key.
pub open spec fn top_get(v: JVal, key: Seq<u8>) -> Option<JVal> {
    match v {
        JVal::Obj(o) => obj_get(o, key),
        _ => Option::None,
    }
}

/// The document after `key` is set to `value` at the top level: `None` when
/// the root is not an object, so that nothing can be set.
pub open spec fn top_set(v: JVal, key: Seq<u8>, value: JVal) -> Option<JVal> {
    match v {
        JVal::Obj(o) => Option::Some(JVal::Obj(obj_set(o, key, value))),
        _ => Option::None,
    }
}

/// When no binding among the first `i` carries `key`, the lookup is decided
/// by the bindings from `i` on.
pub proof fn lemma_obj_get_skip(pairs: Seq<(Seq<u8>, JVal)>, key: Seq<u8>, i: int)
    requires
        0 <= i <= pairs.len(),
        forall|j: int| 0 <= j < i ==> (#[trigger] pairs[j]).0 != key,
    ensures
        obj_get(pairs, key) == obj_get(pairs.skip(i), key),
    decreases i,
{
    if i > 0 {
        assert(pairs[0].0 != key);
        assert(forall|j: int| 0 <= j < i - 1 ==> (#[trigger] pairs.drop_first()[j]).0 == pairs[j + 1].0);
        lemma_obj_get_skip(pairs.drop_first(), key, i - 1);
        assert(pairs.drop_first().skip(i - 1) =~= pairs.skip(i));
    } else {
        assert(pairs.skip(0) =~= pairs);
    }
}

/// When the first binding with `key` stands at `i`, setting `key` overwrites
/// that binding in place; when no binding carries `key`, it appends one.
pub proof fn lemma_obj_set_at(pairs: Seq<(Seq<u8>, JVal)>, key: Seq<u8>, value: JVal, i: int)
    requires
        0 <= i <= pairs.len(),
        forall|j: int| 0 <= j < i ==> (#[trigger] pairs[j]).0 != key,
        i < pairs.len() ==> pairs[i].0 == key,
    ensures
        i < pairs.len() ==> obj_set(pairs, key, value) =~= pairs.update(i, (key, value)),
        i == pairs.len() ==> obj_set(pairs, key, value) =~= pairs.push((key, value)),
    decreases i,
{
    if i > 0 {
        assert(pairs[0].0 != key);
        assert(forall|j: int| 0 <= j < i - 1 ==> (#[trigger] pairs.drop_first()[j]).0 == pairs[j + 1].0);
        lemma_obj_set_at(pairs.drop_first(), key, value, i - 1);
        if i < pairs.len() {
            assert(seq![pairs[0]] + pairs.drop_first().update(i - 1, (key, value)) =~= pairs.update(
                i,
                (key, value),
            ));
        } else {
            assert(seq![pairs[0]] + pairs.drop_first().push((key, value)) =~= pairs.push(
                (key, value),
            ));
        }
    }
}

/// A lookup succeeds exactly when some binding carries the key.
pub proof fn lemma_obj_get_present(pairs: Seq<(Seq<u8>, JVal)>, key: Seq<u8>)
    ensures
        obj_get(pairs, key) is Some <==> exists|j: int|
            0 <= j < pairs.len() && (#[trigger] pairs[j]).0 == key,
    decreases pairs,
{
    if pairs.len() > 0 && pairs[0].0 != key {
        lemma_obj_get_present(pairs.drop_first(), key);
        if obj_get(pairs, key) is Some {
            let j = choose|j: int|
                0 <= j < pairs.drop_first().len() && (#[trigger] pairs.drop_first()[j]).0 == key;
            assert(pairs[j + 1].0 == key);
        }
        if exists|j: int| 0 <= j < pairs.len() && (#[trigger] pairs[j]).0 == key {
            let j = choose|j: int| 0 <= j < pairs.len() && (#[trigger] pairs[j]).0 == key;
            assert(pairs.drop_first()[j - 1].0 == key);
        }
    }
}

/// Setting a key and then looking it up yields the value just set.
pub proof fn lemma_obj_set_get(pairs: Seq<(Seq<u8>, JVal)>, key: Seq<u8>, value: JVal)
    ensures
        obj_get(obj_set(pairs, key, value), key) == Option::Some(value),
    decreases pairs,
{
    if pairs.len() == 0 {
    } else if pairs[0].0 == key {
        assert((seq![(key, value)] + pairs.drop_first())[0] == (key, value));
    } else {
        lemma_obj_set_get(pairs.drop_first(), key, value);
        let rest = obj_set(pairs.drop_first(), key, value);
        assert((seq![pairs[0]] + rest)[0] == pairs[0]);
        assert((seq![pairs[0]] + rest).drop_first() =~= rest);
    }
}

/// Setting one key leaves the lookup of every other key unchanged.
pub proof fn lemma_obj_set_get_other(
    pairs: Seq<(Seq<u8>, JVal)>,
    key: Seq<u8>,
    value: JVal,
    other: Seq<u8>,
)
    requires
        other != key,
    ensures
        obj_get(obj_set(pairs, key, value), other) == obj_get(pairs, other),
    decreases pairs,
{
    reveal_with_fuel(obj_get, 3);
    if pairs.len() == 0 {
        assert((seq![(key, value)])[0] == (key, value));
        assert(seq![(key, value)].drop_first() =~= Seq::<(Seq<u8>, JVal)>::empty());
    } else if pairs[0].0 == key {
        let s = seq![(key, value)] + pairs.drop_first();
        assert(s[0] == (key, value));
        assert(s.drop_first() =~= pairs.drop_first());
    } else {
        lemma_obj_set_get_other(pairs.drop_first(), key, value, other);
        let rest = obj_set(pairs.drop_first(), key, value);
        assert((seq![pairs[0]] + rest)[0] == pairs[0]);
        assert((seq![pairs[0]] + rest).drop_first() =~= rest);
    }
}

/// Setting a key at the top level of an object and then reading it yields
/// the value just set.
pub proof fn lemma_top_set_then_get(v: JVal, key: Seq<u8>, value: JVal)
    requires
        top_set(v, key, value) is Some,
    ensures
        top_get(top_set(v, key, value)->0, key) == Option::Some(value),
{
    let o = v->Obj_0;
    lemma_obj_set_get(o, key, value);
}

/// Setting one key at the top level leaves every other key's lookup
/// unchanged.
pub proof fn lemma_top_set_keeps_others(v: JVal, key: Seq<u8>, value: JVal, other: Seq<u8>)
    requires
        top_set(v, key, value) is Some,
        other != key,
    ensures
        top_get(top_set(v, key, value)->0, other) == top_get(v, other),
{
    let o = v->Obj_0;
    lemma_obj_set_get_other(o, key, value, other);
}

/// Exact equality of two byte strings.
pub fn bytes_eq(a: &[u8], b: &[u8]) -> (r: bool)
    ensures
        r == (a@ == b@),
{
    if a.len() != b.len() {
        return false;
    }
    let mut i: usize = 0;
    while i < a.len()
        invariant
            i <= a.len(),
            a@.len() == b@.len(),
            forall|j: int| 0 <= j < i ==> a@[j] == b@[j],
        decreases a@.len() - i,
    {
        if a[i] != b[i] {
            return false;
        }
        i = i + 1;
    }
    proof {
        assert(a@ =~= b@);
    }
    true
}

/// A fresh copy of a byte string.
pub fn clone_bytes(s: &[u8]) -> (r: Vec<u8>)
    ensures
        r@ == s@,
{
    let mut out: Vec<u8> = Vec::new();
    let mut i: usize = 0;
    while i < s.len()
        invariant
            i <= s.len(),
            out@ =~= s@.subrange(0, i as int),
        decreases s@.len() - i,
    {
        out.push(s[i]);
        i = i + 1;
    }
    proof {
        assert(out@ =~= s@);
    }
    out
}

impl Json {
    /// A fresh document with the same model: a deep copy.
    pub fn deep_clone(&self) -> (r: Json)
        ensures
            r@ == self@,
        decreases *self,
    {
        match self {
            Json::Null => Json::Null,
            Json::Bool(b) => Json::Bool(*b),
            Json::Int(i) => Json::Int(*i),
            Json::Str(s) => Json::Str(clone_bytes(s.as_slice())),
            Json::Arr(v) => {
                let mut out: Vec<Json> = Vec::new();
                let mut i: usize = 0;
                while i < v.len()
                    invariant
                        i <= v.len(),
                        out@.len() == i,
                        forall|j: int| 0 <= j < i ==> (#[trigger] out@[j])@ == v@[j]@,
                        *self == Json::Arr(*v),
                    decreases v@.len() - i,
                {
                    proof {
                        let a = *self;
                        assert(decreases_to!(a => a->Arr_0));
                        assert(a->Arr_0 == *v);
                        assert(decreases_to!(*v => v@));
                        assert(decreases_to!(v@ => v@[i as int]));
                    }
                    let c = v[i].deep_clone();
                    out.push(c);
                    i = i + 1;
                }
                proof {
                    lemma_seq_view(out@);
                    lemma_seq_view(v@);
                    assert(Json::seq_view(out@) =~= Json::seq_view(v@));
                }
                Json::Arr(out)
            }
            Json::Obj(v) => {
                let mut out: Vec<(Vec<u8>, Json)> = Vec::new();
                let mut i: usize = 0;
                while i < v.len()
                    invariant
                        i <= v.len(),
                        out@.len() == i,
                        forall|j: int| 0 <= j < i ==> (#[trigger] out@[j]).0@ == v@[j].0@
                            && out@[j].1@ == v@[j].1@,
                        *self == Json::Obj(*v),
                    decreases v@.len() - i,
                {
                    proof {
                        let a = *self;
                        assert(decreases_to!(a => a->Obj_0));
                        assert(a->Obj_0 == *v);
                        assert(decreases_to!(*v => v@));
                        assert(decreases_to!(v@ => v@[i as int]));
                        let p = v@[i as int];
                        assert(decreases_to!(p => p.1));
                    }
                    let k = clone_bytes(v[i].0.as_slice());
                    let c = v[i].1.deep_clone();
                    out.push((k, c));
                    i = i + 1;
                }
                proof {
                    lemma_pairs_view(out@);
                    lemma_pairs_view(v@);
                    assert(Json::pairs_view(out@) =~= Json::pairs_view(v@));
                }
                Json::Obj(out)
            }
        }
    }

    /// The value bound to `key` at the top level, as a fresh copy. `None`
    /// when the root is not an object or the key is absent, never an error.
    pub fn get_key(&self, key: &[u8]) -> (r: Option<Json>)
        ensures
            top_get(self@, key@) is None ==> r is None,
            r matches Option::Some(j) ==> top_get(self@, key@) == Option::Some(j@),
            top_get(self@, key@) is Some ==> r is Some,
    {
        match self {
            Json::Obj(v) => {
                let ghost pairs = Json::pairs_view(v@);
                proof {
                    lemma_pairs_view(v@);
                }
                let mut i: usize = 0;
                while i < v.len()
                    invariant
                        i <= v.len(),
                        pairs == Json::pairs_view(v@),
                        pairs.len() == v@.len(),
                        forall|j: int| 0 <= j < v@.len() ==> #[trigger] pairs[j] == (v@[j].0@, v@[j].1@),
                        forall|j: int| 0 <= j < i ==> (#[trigger] pairs[j]).0 != key@,
                        self@ == JVal::Obj(pairs),
                    decreases v@.len() - i,
                {
                    if bytes_eq(v[i].0.as_slice(), key) {
                        let c = v[i].1.deep_clone();
                        proof {
                            lemma_obj_get_skip(pairs, key@, i as int);
                            assert(pairs.skip(i as int)[0] == pairs[i as int]);
                        }
                        return Option::Some(c);
                    }
                    i = i + 1;
                }
                proof {
                    lemma_obj_get_skip(pairs, key@, v@.len() as int);
                    assert(pairs.skip(pairs.len() as int) =~= Seq::<(Seq<u8>, JVal)>::empty());
                }
                Option::None
            }
            _ => Option::None,
        }
    }

    /// Sets `key` to `value` at the top level. When the root is an object the
    /// first binding with that key is overwritten, or a binding appended, and
    /// the call reports success; when it is not, the document is unchanged
    /// and the call reports failure.
    pub fn set_key(&mut self, key: &[u8], value: Json) -> (r: bool)
        ensures
            r == (top_set(old(self)@, key@, value@) is Some),
            top_set(old(self)@, key@, value@) matches Option::Some(v2) ==> final(self)@ == v2,
            top_set(old(self)@, key@, value@) is None ==> final(self)@ == old(self)@,
    {
        match self {
            Json::Obj(v) => {
                obj_insert(v, key, value);
                true
            }
            _ => false,
        }
    }
}

/// The index of the first binding that carries `key`, or the number of
/// bindings when none does.
fn find_key(v: &Vec<(Vec<u8>, Json)>, key: &[u8]) -> (i: usize)
    ensures
        0 <= i <= v@.len(),
        forall|j: int| 0 <= j < i ==> (#[trigger] v@[j]).0@ != key@,
        i < v@.len() ==> v@[i as int].0@ == key@,
{
    let mut i: usize = 0;
    while i < v.len()
        invariant
            i <= v.len(),
            forall|j: int| 0 <= j < i ==> (#[trigger] v@[j]).0@ != key@,
        decreases v@.len() - i,
    {
        if bytes_eq(v[i].0.as_slice(), key) {
            return i;
        }
        i = i + 1;
    }
    i
}

/// Overwrites the first binding that carries `key`, or appends one.
fn obj_insert(v: &mut Vec<(Vec<u8>, Json)>, key: &[u8], value: Json)
    ensures
        Json::pairs_view(final(v)@) == obj_set(Json::pairs_view(old(v)@), key@, value@),
{
    let ghost pairs = Json::pairs_view(old(v)@);
    proof {
        lemma_pairs_view(old(v)@);
    }
    let i = find_key(v, key);
    proof {
        assert forall|j: int| 0 <= j < i implies (#[trigger] pairs[j]).0 != key@ by {
            assert(pairs[j] == (v@[j].0@, v@[j].1.view()));
        }
        if i < v@.len() {
            assert(pairs[i as int] == (v@[i as int].0@, v@[i as int].1.view()));
        }
        lemma_obj_set_at(pairs, key@, value@, i as int);
    }
    let k = clone_bytes(key);
    if i < v.len() {
        v.remove(i);
        v.insert(i, (k, value));
        proof {
            lemma_pairs_view(v@);
            assert(v@ =~= old(v)@.update(i as int, (k, value)));
            assert(Json::pairs_view(v@) =~= pairs.update(i as int, (key@, value@)));
        }
    } else {
        v.push((k, value));
        proof {
            lemma_pairs_view(v@);
            assert(Json::pairs_view(v@) =~= pairs.push((key@, value@)));
        }
    }
}

} // verus!
