//! One Open-Meteo spatial `.om` step file, as the tree of its children.
//!
//! Tree layout:
//! root
//!   crs_wkt: String
//!   forecast_reference_time, valid_time, created_at: Int64 (unix seconds)
//!   coordinates: String ("lat lon")
//!   <variable>: FloatArray (ny, nx), chunks (32, 32)
//!     unit: String
use crate::names;
use crate::text;
use crate::timefmt;
use crate::timefmt::UtcTime;
use vstd::prelude::*;
use vstd::string::*;

verus! {

/// What a node of the tree holds. A scalar that could not be read is `None`.
#[derive(Debug, Clone)]
pub enum NodeData {
    Array {
        dims: Vec<u64>,
        chunks: Vec<u64>,
        /// The names and numbers as they are shown to the user.
        compression: String,
        scale_factor: String,
        add_offset: String,
    },
    Text(Option<String>),
    Int64(Option<i64>),
    Int32(Option<i32>),
    Uint64(Option<u64>),
    Uint32(Option<u32>),
    /// A double: its value cut off to an integer, and as it is shown.
    Double { whole: Option<i64>, shown: Option<String> },
    /// A single, as it is shown.
    Float(Option<String>),
    OtherScalar,
    Group,
}

impl NodeData {
    pub open spec fn is_array(self) -> bool {
        self is Array
    }

    /// Whether this is an array (data) variable.
    pub fn holds_array(&self) -> (r: bool)
        ensures
            r == self.is_array(),
    {
        match self {
            NodeData::Array { .. } => true,
            _ => false,
        }
    }
}

/// A direct child of a file: a variable or scalar metadata.
#[derive(Debug, Clone)]
pub struct Child {
    pub name: String,
    pub data: NodeData,
}

/// A step file: its direct children, in the order of their names.
#[derive(Debug, Clone)]
pub struct StepFile {
    pub key: String,
    pub size: u64,
    pub children: Vec<Child>,
}

#[derive(Debug)]
pub struct VarInfo {
    pub dims: Vec<u64>,
    pub units: String,
}

/// The names of children.
pub open spec fn child_names(children: Seq<Child>) -> Seq<Seq<char>> {
    Seq::new(children.len(), |i: int| children[i].name@)
}

/// What the last child of the given name holds.
pub open spec fn lookup(children: Seq<Child>, name: Seq<char>) -> Option<NodeData>
    decreases children.len(),
{
    if children.len() == 0 {
        None
    } else if children.last().name@ == name {
        Some(children.last().data)
    } else {
        lookup(children.drop_last(), name)
    }
}

/// The names of those children that are arrays, in order.
pub open spec fn array_names(children: Seq<Child>) -> Seq<Seq<char>>
    decreases children.len(),
{
    if children.len() == 0 {
        Seq::empty()
    } else if children.last().data.is_array() {
        array_names(children.drop_last()).push(children.last().name@)
    } else {
        array_names(children.drop_last())
    }
}

/// A number of 64 bits read as signed.
pub open spec fn as_signed(v: u64) -> int {
    if v <= i64::MAX {
        v as int
    } else {
        v - 0x1_0000_0000_0000_0000
    }
}

/// The integer that a scalar stands for.
pub open spec fn integer_of(data: NodeData) -> Option<int> {
    match data {
        NodeData::Int64(Some(v)) => Some(v as int),
        NodeData::Int32(Some(v)) => Some(v as int),
        NodeData::Uint64(Some(v)) => Some(as_signed(v)),
        NodeData::Uint32(Some(v)) => Some(v as int),
        NodeData::Double { whole: Some(v), .. } => Some(v as int),
        _ => None,
    }
}

/// The text that a scalar holds.
pub open spec fn text_of(data: NodeData) -> Option<Seq<char>> {
    match data {
        NodeData::Text(Some(s)) => Some(s@),
        _ => None,
    }
}

pub open spec fn not_present(key: Seq<char>, name: Seq<char>) -> Seq<char> {
    key + ": variable "@ + text::quoted(name) + " not present"@
}

pub open spec fn not_an_array(key: Seq<char>, name: Seq<char>) -> Seq<char> {
    key + ": "@ + text::quoted(name) + " is not an array variable"@
}

/// The shape of an array as it is shown: `[721, 1440]`.
pub open spec fn shape_text(dims: Seq<u64>) -> Seq<char> {
    "["@ + text::join(dims.map_values(|d: u64| text::dec(d as nat)), ", "@) + "]"@
}

/// The shape of an array as it is shown: `[721, 1440]`.
pub fn shape(dims: &[u64]) -> (r: String)
    ensures
        r@ == shape_text(dims@),
{
    let ghost want = dims@.map_values(|d: u64| text::dec(d as nat));
    let mut parts: Vec<String> = Vec::new();
    let mut i: usize = 0;
    while i < dims.len()
        invariant
            i <= dims.len(),
            want == dims@.map_values(|d: u64| text::dec(d as nat)),
            parts@.len() == i,
            forall|k: int| 0 <= k < i ==> (#[trigger] parts@[k])@ == want[k],
        decreases dims.len() - i,
    {
        let mut s = String::new();
        text::push_dec(&mut s, dims[i] as u128);
        assert(s@ == text::dec(dims@[i as int] as nat));
        parts.push(s);
        i += 1;
    }
    assert(text::texts(parts@) == want);
    let mut out = "[".to_owned();
    text::join_onto(&mut out, parts.as_slice(), ", ");
    out.append("]");
    out
}

/// Where the children's names are in order, each occurs once.
proof fn lemma_lookup_at(children: Seq<Child>, i: int)
    requires
        names::ascending(child_names(children)),
        0 <= i < children.len(),
    ensures
        lookup(children, children[i].name@) == Some(children[i].data),
    decreases children.len(),
{
    if i < children.len() - 1 {
        let n = child_names(children);
        names::lemma_less_irreflexive(n[i]);
        assert(names::less(n[i], n[n.len() - 1]));
        lemma_names_ascend(children);
        lemma_lookup_at(children.drop_last(), i);
    }
}

proof fn lemma_names_ascend(children: Seq<Child>)
    requires
        names::ascending(child_names(children)),
        children.len() > 0,
    ensures
        names::ascending(child_names(children.drop_last())),
{
    let n = child_names(children);
    let m = child_names(children.drop_last());
    assert forall|i: int, j: int| 0 <= i < j < m.len() implies #[trigger] names::less(
        m[i],
        m[j],
    ) by {
        assert(names::less(n[i], n[j]));
    }
}

proof fn lemma_lookup_none(children: Seq<Child>, name: Seq<char>)
    requires
        forall|i: int| 0 <= i < children.len() ==> (#[trigger] children[i]).name@ != name,
    ensures
        lookup(children, name) is None,
    decreases children.len(),
{
    if children.len() > 0 {
        lemma_lookup_none(children.drop_last(), name);
    }
}

/// A name that is looked up with success is there.
proof fn lemma_lookup_some(children: Seq<Child>, name: Seq<char>) -> (i: int)
    requires
        lookup(children, name) is Some,
    ensures
        0 <= i < children.len(),
        children[i].name@ == name,
    decreases children.len(),
{
    if children.last().name@ == name {
        children.len() - 1
    } else {
        lemma_lookup_some(children.drop_last(), name)
    }
}

/// Put a child in its place; it replaces one of the same name.
fn insert_child(children: &mut Vec<Child>, child: Child)
    requires
        names::ascending(child_names(old(children)@)),
    ensures
        names::ascending(child_names(final(children)@)),
        forall|name: Seq<char>| #[trigger]
            lookup(final(children)@, name) == (if name == child.name@ {
                Some(child.data)
            } else {
                lookup(old(children)@, name)
            }),
{
    let ghost before = children@;
    let ghost x = child.name@;
    let ghost data = child.data;
    let mut i: usize = children.len();
    while i > 0 && names::comes_before(child.name.as_str(), children[i - 1].name.as_str())
        invariant
            i <= children.len(),
            x == child.name@,
            children@ == before,
            forall|k: int| i <= k < before.len() ==> names::less(x, (#[trigger] before[k]).name@),
        decreases i,
    {
        i -= 1;
    }
    if i > 0 && text::same(child.name.as_str(), children[i - 1].name.as_str()) {
        let ghost at = i - 1;
        children.set(i - 1, child);
        proof {
            let now = children@;
            assert(child_names(now) == child_names(before));
            assert(now[at].name@ == x && now[at].data == data);
            assert forall|k: int|
                0 <= k < before.len() && (#[trigger] before[k]).name@ != x implies now.contains(
                before[k],
            ) by {
                assert(now[k] == before[k]);
            }
            assert forall|k: int|
                0 <= k < now.len() && (#[trigger] now[k]).name@ != x implies before.contains(
                now[k],
            ) by {
                assert(before[k] == now[k]);
            }
            assert forall|name: Seq<char>| #[trigger] lookup(now, name) == (if name == x {
                Some(data)
            } else {
                lookup(before, name)
            }) by {
                lemma_same_lookup(before, now, name, x, data);
            }
        }
    } else {
        children.insert(i, child);
        proof {
            let now = children@;
            let b = child_names(before);
            let n = child_names(now);
            assert(n == b.insert(i as int, x));
            assert forall|k: int| 0 <= k < i implies names::less(#[trigger] b[k], x) by {
                names::lemma_less_total(b[i - 1], x);
                if k < i - 1 {
                    assert(names::less(b[k], b[i - 1]));
                    names::lemma_less_transitive(b[k], b[i - 1], x);
                }
            }
            assert forall|k: int| i <= k < b.len() implies names::less(x, #[trigger] b[k]) by {
                assert(names::less(x, before[k].name@));
            }
            assert forall|a: int, c: int| 0 <= a < c < n.len() implies #[trigger] names::less(
                n[a],
                n[c],
            ) by {
                if c < i {
                    assert(n[a] == b[a] && n[c] == b[c]);
                } else if c == i {
                    assert(n[a] == b[a]);
                } else if a < i {
                    assert(n[a] == b[a] && n[c] == b[c - 1]);
                } else if a == i {
                    assert(n[c] == b[c - 1]);
                } else {
                    assert(n[a] == b[a - 1] && n[c] == b[c - 1]);
                }
            }
            assert(now[i as int].name@ == x && now[i as int].data == data);
            assert forall|k: int|
                0 <= k < before.len() && (#[trigger] before[k]).name@ != x implies now.contains(
                before[k],
            ) by {
                if k < i {
                    assert(now[k] == before[k]);
                } else {
                    assert(now[k + 1] == before[k]);
                }
            }
            assert forall|k: int|
                0 <= k < now.len() && (#[trigger] now[k]).name@ != x implies before.contains(
                now[k],
            ) by {
                if k < i {
                    assert(before[k] == now[k]);
                } else {
                    assert(before[k - 1] == now[k]);
                }
            }
            assert forall|name: Seq<char>| #[trigger] lookup(now, name) == (if name == x {
                Some(data)
            } else {
                lookup(before, name)
            }) by {
                lemma_same_lookup(before, now, name, x, data);
            }
        }
    }
}

/// Two sorted lists that hold the same children but for `x` agree on every other name.
proof fn lemma_same_lookup(
    before: Seq<Child>,
    now: Seq<Child>,
    name: Seq<char>,
    x: Seq<char>,
    data: NodeData,
)
    requires
        names::ascending(child_names(before)),
        names::ascending(child_names(now)),
        exists|i: int| 0 <= i < now.len() && (#[trigger] now[i]).name@ == x && now[i].data == data,
        forall|i: int|
            0 <= i < before.len() && (#[trigger] before[i]).name@ != x ==> now.contains(before[i]),
        forall|i: int|
            0 <= i < now.len() && (#[trigger] now[i]).name@ != x ==> before.contains(now[i]),
    ensures
        lookup(now, name) == (if name == x {
            Some(data)
        } else {
            lookup(before, name)
        }),
{
    if name == x {
        let i = choose|i: int|
            0 <= i < now.len() && (#[trigger] now[i]).name@ == x && now[i].data == data;
        lemma_lookup_at(now, i);
    } else if lookup(before, name) is Some {
        let i = lemma_lookup_some(before, name);
        lemma_lookup_at(before, i);
        assert(now.contains(before[i]));
        let k = choose|k: int| 0 <= k < now.len() && now[k] == before[i];
        lemma_lookup_at(now, k);
    } else if lookup(now, name) is Some {
        let i = lemma_lookup_some(now, name);
        lemma_lookup_at(now, i);
        assert(before.contains(now[i]));
        let k = choose|k: int| 0 <= k < before.len() && before[k] == now[i];
        lemma_lookup_at(before, k);
    }
}

impl StepFile {
    /// The names of the children are in order, each once.
    pub open spec fn well_formed(self) -> bool {
        names::ascending(child_names(self.children@))
    }

    /// What the child of the given name holds.
    pub open spec fn child(self, name: Seq<char>) -> Option<NodeData> {
        lookup(self.children@, name)
    }

    pub open spec fn integer(self, name: Seq<char>) -> Option<int> {
        match self.child(name) {
            Some(d) => integer_of(d),
            None => None,
        }
    }

    /// The file with the children found in it; of several with one name the last counts.
    pub fn new(key: String, size: u64, found: Vec<Child>) -> (r: Self)
        ensures
            r.well_formed(),
            r.key == key,
            r.size == size,
            forall|name: Seq<char>| #[trigger] r.child(name) == lookup(found@, name),
    {
        let ghost all = found@;
        let mut rest = found;
        let mut reversed: Vec<Child> = Vec::new();
        while rest.len() > 0
            invariant
                rest@ + reversed@.reverse() == all,
            decreases rest.len(),
        {
            let ghost r0 = rest@;
            let ghost v0 = reversed@;
            if let Some(c) = rest.pop() {
                reversed.push(c);
                assert(rest@ + reversed@.reverse() == r0 + v0.reverse());
            }
        }
        assert(reversed@.reverse() == all);
        let mut children: Vec<Child> = Vec::new();
        let ghost mut n: int = 0;
        assert(all.take(0) == children@);
        while reversed.len() > 0
            invariant
                0 <= n <= all.len(),
                all.take(n) + reversed@.reverse() == all,
                names::ascending(child_names(children@)),
                forall|name: Seq<char>| #[trigger]
                    lookup(children@, name) == lookup(all.take(n), name),
            decreases reversed.len(),
        {
            let ghost v0 = reversed@;
            if let Some(c) = reversed.pop() {
                proof {
                    assert(all == all.take(n) + v0.reverse());
                    assert(v0.reverse()[0] == c);
                    assert(all[n] == c);
                    assert(all.take(n + 1).drop_last() == all.take(n));
                    assert(all.take(n + 1).last() == c);
                    assert(all.take(n + 1) + reversed@.reverse() == all);
                }
                insert_child(&mut children, c);
                proof {
                    n = n + 1;
                }
            }
        }
        assert(all.take(n) == all);
        StepFile { key, size, children }
    }

    fn find(&self, name: &str) -> (r: Option<&NodeData>)
        requires
            self.well_formed(),
        ensures
            match r {
                Some(d) => self.child(name@) == Some(*d),
                None => self.child(name@) is None,
            },
    {
        let mut i: usize = 0;
        while i < self.children.len()
            invariant
                i <= self.children.len(),
                self.well_formed(),
                forall|k: int| 0 <= k < i ==> (#[trigger] self.children@[k]).name@ != name@,
            decreases self.children.len() - i,
        {
            if text::same(self.children[i].name.as_str(), name) {
                proof {
                    lemma_lookup_at(self.children@, i as int);
                }
                return Some(&self.children[i].data);
            }
            i += 1;
        }
        proof {
            lemma_lookup_none(self.children@, name@);
        }
        None
    }

    /// Names of array (data) variables, in order.
    pub fn variable_names(&self) -> (r: Vec<String>)
        ensures
            text::texts(r@) == array_names(self.children@),
    {
        let mut out: Vec<String> = Vec::new();
        let mut i: usize = 0;
        assert(self.children@.take(0) == Seq::<Child>::empty());
        assert(text::texts(out@) == Seq::<Seq<char>>::empty());
        while i < self.children.len()
            invariant
                i <= self.children.len(),
                text::texts(out@) == array_names(self.children@.take(i as int)),
            decreases self.children.len() - i,
        {
            let ghost before = out@;
            assert(self.children@.take(i + 1).drop_last() == self.children@.take(i as int));
            if self.children[i].data.holds_array() {
                out.push(self.children[i].name.as_str().to_owned());
                assert(text::texts(out@) == text::texts(before).push(
                    self.children@[i as int].name@,
                ));
            }
            i += 1;
        }
        assert(self.children@.take(i as int) == self.children@);
        out
    }

    pub fn has_variable(&self, name: &str) -> (r: bool)
        requires
            self.well_formed(),
        ensures
            r == (self.child(name@) matches Some(d) && d.is_array()),
    {
        match self.find(name) {
            Some(d) => d.holds_array(),
            None => false,
        }
    }

    pub fn scalar_string(&self, name: &str) -> (r: Option<String>)
        requires
            self.well_formed(),
        ensures
            match r {
                Some(s) => self.child(name@) matches Some(d) && text_of(d) == Some(s@),
                None => self.child(name@) matches Some(d) ==> text_of(d) is None,
            },
    {
        match self.find(name) {
            Some(NodeData::Text(Some(s))) => Some(s.as_str().to_owned()),
            _ => None,
        }
    }

    pub fn scalar_i64(&self, name: &str) -> (r: Option<i64>)
        requires
            self.well_formed(),
        ensures
            match r {
                Some(v) => self.integer(name@) == Some(v as int),
                None => self.integer(name@) is None,
            },
    {
        match self.find(name) {
            None => None,
            Some(d) => match d {
                NodeData::Int64(v) => *v,
                NodeData::Int32(Some(v)) => Some(*v as i64),
                NodeData::Uint64(Some(v)) => {
                    let w: i128 = *v as i128;
                    if w <= 0x7fff_ffff_ffff_ffff {
                        Some(w as i64)
                    } else {
                        Some((w - 0x1_0000_0000_0000_0000) as i64)
                    }
                },
                NodeData::Uint32(Some(v)) => Some(*v as i64),
                NodeData::Double { whole, .. } => *whole,
                _ => None,
            },
        }
    }

    pub fn scalar_time(&self, name: &str) -> (r: Option<UtcTime>)
        requires
            self.well_formed(),
        ensures
            match r {
                Some(t) => self.integer(name@) == Some(t.secs as int) && t.nanos == 0 && t.valid(),
                None => self.integer(name@) matches Some(v) ==> !timefmt::in_range(v),
            },
    {
        match self.scalar_i64(name) {
            Some(v) => UtcTime::from_timestamp(v),
            None => None,
        }
    }

    pub fn crs_wkt(&self) -> (r: Result<String, String>)
        requires
            self.well_formed(),
        ensures
            match r {
                Ok(s) => self.child("crs_wkt"@) matches Some(d) && text_of(d) == Some(s@),
                Err(e) => (self.child("crs_wkt"@) matches Some(d) ==> text_of(d) is None) && e@
                    == self.key@ + ": missing crs_wkt scalar"@,
            },
    {
        match self.scalar_string("crs_wkt") {
            Some(s) => Ok(s),
            None => {
                let mut e = self.key.as_str().to_owned();
                e.append(": missing crs_wkt scalar");
                Err(e)
            },
        }
    }

    /// What is wrong with a read of the variable `name`.
    pub open spec fn variable_error(self, name: Seq<char>) -> Option<Seq<char>> {
        match self.child(name) {
            None => Some(not_present(self.key@, name)),
            Some(d) => if d.is_array() {
                None
            } else {
                Some(not_an_array(self.key@, name))
            },
        }
    }

    /// The shape of the array variable `name`.
    pub open spec fn dims(self, name: Seq<char>) -> Seq<u64> {
        match self.child(name) {
            Some(NodeData::Array { dims, .. }) => dims@,
            _ => Seq::empty(),
        }
    }

    fn variable(&self, name: &str) -> (r: Result<&Vec<u64>, String>)
        requires
            self.well_formed(),
        ensures
            match r {
                Ok(d) => self.variable_error(name@) is None && d@ == self.dims(name@),
                Err(e) => self.variable_error(name@) == Some(e@),
            },
    {
        match self.find(name) {
            None => {
                let mut e = self.key.as_str().to_owned();
                e.append(": variable ");
                e.append(text::quote(name).as_str());
                e.append(" not present");
                Err(e)
            },
            Some(NodeData::Array { dims, .. }) => Ok(dims),
            Some(_) => {
                let mut e = self.key.as_str().to_owned();
                e.append(": ");
                e.append(text::quote(name).as_str());
                e.append(" is not an array variable");
                Err(e)
            },
        }
    }

    /// Shape and units of a variable. `unit` is what its child of that name
    /// holds; anything but a readable text counts as no units.
    pub fn var_info(&self, name: &str, unit: Option<&NodeData>) -> (r: Result<VarInfo, String>)
        requires
            self.well_formed(),
        ensures
            match r {
                Ok(v) => {
                    &&& self.variable_error(name@) is None
                    &&& v.dims@ == self.dims(name@)
                    &&& v.units@ == match unit {
                        Some(d) => match text_of(*d) {
                            Some(s) => s,
                            None => Seq::empty(),
                        },
                        None => Seq::empty(),
                    }
                },
                Err(e) => self.variable_error(name@) == Some(e@),
            },
    {
        let dims = match self.variable(name) {
            Ok(d) => d,
            Err(e) => {
                return Err(e);
            },
        };
        let units = match unit {
            Some(NodeData::Text(Some(s))) => s.as_str().to_owned(),
            _ => String::new(),
        };
        Ok(VarInfo { dims: copy_dims(dims.as_slice()), units })
    }

    /// A crop is read from a variable of two dimensions.
    pub fn check_2d(&self, name: &str) -> (r: Result<(), String>)
        requires
            self.well_formed(),
        ensures
            match r {
                Ok(_) => self.variable_error(name@) is None && self.dims(name@).len() == 2,
                Err(e) => match self.variable_error(name@) {
                    Some(m) => e@ == m,
                    None => self.dims(name@).len() != 2 && e@ == self.key@ + ": "@ + name@
                        + " has "@ + text::dec(self.dims(name@).len())
                        + " dimensions, expected 2"@,
                },
            },
    {
        let dims = match self.variable(name) {
            Ok(d) => d,
            Err(e) => {
                return Err(e);
            },
        };
        if dims.len() != 2 {
            let mut e = self.key.as_str().to_owned();
            e.append(": ");
            e.append(name);
            e.append(" has ");
            text::push_dec(&mut e, dims.len() as u128);
            e.append(" dimensions, expected 2");
            return Err(e);
        }
        Ok(())
    }

    /// A window is read from a variable stored as `(1, n)` (reduced Gaussian grids).
    pub fn check_1d(&self, name: &str) -> (r: Result<(), String>)
        requires
            self.well_formed(),
        ensures
            match r {
                Ok(_) => self.variable_error(name@) is None && self.dims(name@).len() == 2
                    && self.dims(name@)[0] == 1,
                Err(e) => match self.variable_error(name@) {
                    Some(m) => e@ == m,
                    None => !(self.dims(name@).len() == 2 && self.dims(name@)[0] == 1) && e@
                        == self.key@ + ": "@ + name@ + " has shape "@ + shape_text(
                        self.dims(name@),
                    ) + ", expected (1, n)"@,
                },
            },
    {
        let dims = match self.variable(name) {
            Ok(d) => d,
            Err(e) => {
                return Err(e);
            },
        };
        if dims.len() != 2 || dims[0] != 1 {
            let mut e = self.key.as_str().to_owned();
            e.append(": ");
            e.append(name);
            e.append(" has shape ");
            e.append(shape(dims.as_slice()).as_str());
            e.append(", expected (1, n)");
            return Err(e);
        }
        Ok(())
    }

    /// The first line of the printed tree.
    pub fn title(&self) -> (r: String)
        ensures
            r@ == self.key@ + " ("@ + text::dec(self.size as nat) + " bytes)"@,
    {
        let mut out = self.key.as_str().to_owned();
        out.append(" (");
        text::push_dec(&mut out, self.size as u128);
        out.append(" bytes)");
        out
    }
}

pub fn copy_dims(v: &[u64]) -> (r: Vec<u64>)
    ensures
        r@ == v@,
{
    let mut out: Vec<u64> = Vec::new();
    let mut i: usize = 0;
    while i < v.len()
        invariant
            i <= v.len(),
            out@ == v@.take(i as int),
        decreases v.len() - i,
    {
        out.push(v[i]);
        i += 1;
        assert(v@.take(i as int) == v@.take(i - 1).push(v@[i - 1]));
    }
    assert(v@.take(i as int) == v@);
    out
}

/// Two spaces for each level.
pub open spec fn padding(depth: nat) -> Seq<char>
    decreases depth,
{
    if depth == 0 {
        Seq::empty()
    } else {
        padding((depth - 1) as nat) + "  "@
    }
}

/// The value of a scalar as it is shown.
pub open spec fn scalar_text(data: NodeData) -> Seq<char> {
    match data {
        NodeData::Text(Some(s)) => text::quoted(s@),
        NodeData::Int64(Some(v)) => text::dec_int(v as int),
        NodeData::Int32(Some(v)) => text::dec_int(v as int),
        NodeData::Double { shown: Some(s), .. } => s@,
        NodeData::Float(Some(s)) => s@,
        _ => "<unreadable>"@,
    }
}

/// One node of the printed tree.
pub open spec fn node_text(name: Seq<char>, kind: Seq<char>, depth: nat, data: NodeData) -> Seq<
    char,
> {
    match data {
        NodeData::Array { dims, chunks, compression, scale_factor, add_offset } => padding(depth)
            + name + ": "@ + kind + " dims="@ + shape_text(dims@) + " chunks="@ + shape_text(
            chunks@,
        ) + " compression="@ + compression@ + " scale_factor="@ + scale_factor@ + " add_offset="@
            + add_offset@,
        NodeData::Group => padding(depth) + name + ": group"@,
        _ => padding(depth) + name + ": "@ + kind + " = "@ + scalar_text(data),
    }
}

/// One line of the printed variable tree. `kind` is the name of the data type.
pub fn node_line(name: &str, kind: &str, depth: usize, data: &NodeData) -> (r: String)
    ensures
        r@ == node_text(name@, kind@, depth as nat, *data),
{
    let mut out = String::new();
    let mut i: usize = 0;
    while i < depth
        invariant
            i <= depth,
            out@ == padding(i as nat),
        decreases depth - i,
    {
        out.append("  ");
        i += 1;
    }
    out.append(name);
    match data {
        NodeData::Array { dims, chunks, compression, scale_factor, add_offset } => {
            out.append(": ");
            out.append(kind);
            out.append(" dims=");
            out.append(shape(dims.as_slice()).as_str());
            out.append(" chunks=");
            out.append(shape(chunks.as_slice()).as_str());
            out.append(" compression=");
            out.append(compression.as_str());
            out.append(" scale_factor=");
            out.append(scale_factor.as_str());
            out.append(" add_offset=");
            out.append(add_offset.as_str());
        },
        NodeData::Group => {
            out.append(": group");
        },
        _ => {
            out.append(": ");
            out.append(kind);
            out.append(" = ");
            push_scalar(&mut out, data);
        },
    }
    out
}

fn push_scalar(out: &mut String, data: &NodeData)
    ensures
        final(out)@ == old(out)@ + scalar_text(*data),
{
    match data {
        NodeData::Text(Some(s)) => {
            out.append(text::quote(s.as_str()).as_str());
        },
        NodeData::Int64(Some(v)) => {
            text::push_dec_int(out, *v);
        },
        NodeData::Int32(Some(v)) => {
            text::push_dec_int(out, *v as i64);
        },
        NodeData::Double { shown: Some(s), .. } => {
            out.append(s.as_str());
        },
        NodeData::Float(Some(s)) => {
            out.append(s.as_str());
        },
        _ => {
            out.append("<unreadable>");
        },
    }
}

proof fn lemma_array_names(children: Seq<Child>, name: Seq<char>)
    requires
        names::ascending(child_names(children)),
    ensures
        array_names(children).contains(name) <==> (lookup(children, name) matches Some(d)
            && d.is_array()),
        names::ascending(array_names(children)),
        forall|i: int|
            0 <= i < array_names(children).len() ==> child_names(children).contains(
                #[trigger] array_names(children)[i],
            ),
    decreases children.len(),
{
    if children.len() > 0 {
        let rest = children.drop_last();
        let was = array_names(rest);
        let all = array_names(children);
        let n = child_names(children);
        let last = children.last().name@;
        lemma_names_ascend(children);
        lemma_array_names(rest, name);
        assert(n == child_names(rest).push(last));
        assert(n[n.len() - 1] == last);
        assert forall|x: Seq<char>| child_names(rest).contains(x) implies n.contains(x)
            && names::less(x, last) by {
            let k = choose|k: int| 0 <= k < child_names(rest).len() && child_names(rest)[k] == x;
            assert(n[k] == x);
            assert(names::less(n[k], n[n.len() - 1]));
        }
        names::lemma_less_irreflexive(last);
        if children.last().data.is_array() {
            assert(all == was.push(last));
            assert(all[was.len() as int] == last);
            if was.contains(name) {
                let k = choose|k: int| 0 <= k < was.len() && was[k] == name;
                assert(all[k] == name);
                assert(child_names(rest).contains(was[k]));
            }
            if all.contains(name) && name != last {
                let k = choose|k: int| 0 <= k < all.len() && all[k] == name;
                assert(was[k] == name);
            }
            assert forall|i: int, j: int| 0 <= i < j < all.len() implies #[trigger] names::less(
                all[i],
                all[j],
            ) by {
                assert(all[i] == was[i]);
                assert(child_names(rest).contains(was[i]));
                if j < was.len() {
                    assert(all[j] == was[j]);
                }
            }
            assert forall|i: int| 0 <= i < all.len() implies n.contains(#[trigger] all[i]) by {
                if i < was.len() {
                    assert(all[i] == was[i]);
                    assert(child_names(rest).contains(was[i]));
                }
            }
        } else {
            assert(all == was);
            if was.contains(name) {
                let k = choose|k: int| 0 <= k < was.len() && was[k] == name;
                assert(child_names(rest).contains(was[k]));
            }
        }
    }
}

/// The names of the variables of a file are in order, each once, and they are
/// exactly the names of which the file has a variable.
pub proof fn law_variables_are_listed(file: StepFile, name: Seq<char>)
    requires
        file.well_formed(),
    ensures
        names::ascending(array_names(file.children@)),
        array_names(file.children@).contains(name) <==> (file.child(name) matches Some(d)
            && d.is_array()),
        array_names(file.children@).contains(name) <==> file.variable_error(name) is None,
{
    lemma_array_names(file.children@, name);
}

/// The child of a name is the last one that has it; there is none exactly where none
/// of the children has it.
pub proof fn law_the_last_child_counts(children: Seq<Child>, name: Seq<char>)
    ensures
        match lookup(children, name) {
            Some(d) => exists|i: int|
                0 <= i < children.len() && (#[trigger] children[i]).name@ == name
                    && children[i].data == d && forall|j: int|
                    i < j < children.len() ==> (#[trigger] children[j]).name@ != name,
            None => forall|i: int|
                0 <= i < children.len() ==> (#[trigger] children[i]).name@ != name,
        },
    decreases children.len(),
{
    if children.len() > 0 {
        let rest = children.drop_last();
        let n = rest.len() as int;
        if children[n].name@ != name {
            law_the_last_child_counts(rest, name);
            if let Some(d) = lookup(rest, name) {
                let i = choose|i: int|
                    0 <= i < rest.len() && (#[trigger] rest[i]).name@ == name && rest[i].data == d
                        && forall|j: int| i < j < rest.len() ==> (#[trigger] rest[j]).name@ != name;
                assert(children[i].name@ == name);
                assert forall|j: int| i < j < children.len() implies (
                #[trigger] children[j]).name@ != name by {
                    if j < n {
                        assert(rest[j] == children[j]);
                    }
                }
            } else {
                assert forall|i: int| 0 <= i < children.len() implies (
                #[trigger] children[i]).name@ != name by {
                    if i < n {
                        assert(rest[i] == children[i]);
                    }
                }
            }
        } else {
            assert(children[n].name@ == name);
        }
    }
}

/// A scalar keeps its value, unsigned numbers of 64 bits as far as a signed one can
/// hold it.
pub proof fn law_integers_keep_their_value(v: u64)
    ensures
        v <= i64::MAX ==> as_signed(v) == v,
        i64::MIN <= as_signed(v) <= i64::MAX,
        (v - as_signed(v)) % 0x1_0000_0000_0000_0000 == 0,
{
}

/// The tree is indented by two spaces for each level.
pub proof fn law_padding(depth: nat)
    ensures
        padding(depth).len() == 2 * depth,
        forall|i: int| 0 <= i < padding(depth).len() ==> #[trigger] padding(depth)[i] == ' ',
    decreases depth,
{
    reveal_strlit("  ");
    if depth > 0 {
        law_padding((depth - 1) as nat);
        let was = padding((depth - 1) as nat);
        assert forall|i: int| 0 <= i < padding(depth).len() implies #[trigger] padding(depth)[i]
            == ' ' by {
            if i < was.len() {
                assert(padding(depth)[i] == was[i]);
            }
        }
    }
}

} // verus!
