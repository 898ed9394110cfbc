//! The code object model and the two-pass assembler that assigns each object
//! its address and builds the label table.
use vstd::prelude::*;

verus! {

/// An argument of an instruction: a literal value, or a reference to a label
/// that is not resolved here.
#[derive(Debug)]
pub enum IArg {
    Raw(u64),
    LabelAccess { name: String, is_relative: bool, offset: i32 },
}

/// One element of a program.
#[derive(Debug)]
pub enum CodeObject {
    /// An instruction; `idef` is the index of its definition in a table
    /// that the caller owns.
    Instruction { idef: usize, args: Vec<IArg> },
    /// A word emitted as it is.
    RawData(u64),
    /// Sets the address of the objects that follow.
    AddressTag(u64),
    /// Names the current address.
    LabelTag(String),
}

/// Why a program could not be assembled.
#[derive(Debug)]
pub enum CompileError {
    /// The program does not begin with an address tag.
    StartWithAddressTag,
    /// A label name is used twice; it carries that name.
    DuplicateLabel(String),
}

/// Sizes of the target machine, in bits.
#[derive(Debug)]
pub struct CodeInfo {
    pub opcode_size: u8,
    pub address_size: u8,
}

/// An assembled program: the objects, the address of each, and the labels
/// in the order of their tags.
#[derive(Debug)]
pub struct Code {
    pub info: CodeInfo,
    pub code: Vec<CodeObject>,
    pub addr_image: Vec<u64>,
    pub label_table: Vec<(String, u64)>,
}

/// Whether the program begins with an address tag.
pub open spec fn starts_with_mark(objs: Seq<CodeObject>) -> bool {
    objs.len() > 0 && objs[0] is AddressTag
}

/// The address that the first address tag sets.
pub open spec fn start_address(objs: Seq<CodeObject>) -> int {
    match objs[0] {
        CodeObject::AddressTag(a) => a as int,
        _ => 0,
    }
}

/// The address counter after an object, given the counter before it.
pub open spec fn step(counter: int, o: CodeObject) -> int {
    match o {
        CodeObject::AddressTag(a) => a as int,
        CodeObject::RawData(_) => counter + 1,
        CodeObject::Instruction { .. } => counter + 1,
        CodeObject::LabelTag(_) => counter,
    }
}

/// The address counter once the first `n` objects are placed: the address
/// of object `n`.
pub open spec fn counter_at(objs: Seq<CodeObject>, n: nat) -> int
    decreases n,
{
    if n == 0 {
        start_address(objs)
    } else {
        step(counter_at(objs, (n - 1) as nat), objs[n - 1])
    }
}

/// Every value the address counter takes fits in a word.
pub open spec fn addresses_fit(objs: Seq<CodeObject>) -> bool {
    forall|n: nat| n <= objs.len() ==> #[trigger] counter_at(objs, n) <= u64::MAX
}

/// The name of a label tag.
pub open spec fn label_name(o: CodeObject) -> Option<Seq<char>> {
    match o {
        CodeObject::LabelTag(s) => Some(s@),
        _ => None,
    }
}

/// No two label tags among the first `n` objects share a name.
pub open spec fn labels_unique_upto(objs: Seq<CodeObject>, n: int) -> bool {
    forall|a: int, b: int|
        0 <= a < b < n && (#[trigger] label_name(objs[a])) is Some ==> #[trigger] label_name(
            objs[b],
        ) != label_name(objs[a])
}

/// The label table of the first `n` objects placed at `addrs`: each label
/// tag's name with its address, in order.
pub open spec fn label_entries(objs: Seq<CodeObject>, addrs: Seq<u64>, n: nat) -> Seq<
    (Seq<char>, u64),
>
    decreases n,
{
    if n == 0 {
        seq![]
    } else {
        let prev = label_entries(objs, addrs, (n - 1) as nat);
        match label_name(objs[n - 1]) {
            Some(s) => prev.push((s, addrs[n - 1])),
            None => prev,
        }
    }
}

/// The index of the label tag behind each entry of `label_entries`.
spec fn label_sources(objs: Seq<CodeObject>, n: nat) -> Seq<int>
    decreases n,
{
    if n == 0 {
        seq![]
    } else {
        let prev = label_sources(objs, (n - 1) as nat);
        match label_name(objs[n - 1]) {
            Some(_) => prev.push(n - 1),
            None => prev,
        }
    }
}

proof fn lemma_label_sources(objs: Seq<CodeObject>, addrs: Seq<u64>, n: nat)
    requires
        n <= objs.len(),
    ensures
        label_sources(objs, n).len() == label_entries(objs, addrs, n).len(),
        forall|k: int|
            0 <= k < label_sources(objs, n).len() ==> 0 <= #[trigger] label_sources(objs, n)[k]
                < n && label_name(objs[label_sources(objs, n)[k]]) == Some(
                label_entries(objs, addrs, n)[k].0,
            ),
        forall|x: int, y: int|
            0 <= x < y < label_sources(objs, n).len() ==> #[trigger] label_sources(objs, n)[x]
                < #[trigger] label_sources(objs, n)[y],
    decreases n,
{
    if n > 0 {
        lemma_label_sources(objs, addrs, (n - 1) as nat);
    }
}

/// The view of a label table: names as character sequences.
pub open spec fn table_view(t: Seq<(String, u64)>) -> Seq<(Seq<char>, u64)> {
    t.map_values(|e: (String, u64)| (e.0@, e.1))
}

/// Whether `Code::new` can place `code` without the address counter
/// leaving the range of a word: always so for a program that does not begin
/// with an address tag, which is rejected before any address is counted.
pub fn addresses_in_range(code: &Vec<CodeObject>) -> (r: bool)
    ensures
        r == (starts_with_mark(code@) ==> addresses_fit(code@)),
{
    if code.len() == 0 {
        return true;
    }
    let mut offset: u64 = match &code[0] {
        CodeObject::AddressTag(a) => *a,
        _ => {
            return true;
        },
    };
    let mut i: usize = 0;
    while i < code.len()
        invariant
            starts_with_mark(code@),
            i <= code@.len(),
            offset == counter_at(code@, i as nat),
            forall|k: nat| k <= i ==> #[trigger] counter_at(code@, k) <= u64::MAX,
        decreases code@.len() - i,
    {
        match &code[i] {
            CodeObject::AddressTag(a) => {
                offset = *a;
            },
            CodeObject::LabelTag(_) => {},
            _ => {
                if offset == u64::MAX {
                    proof {
                        assert(counter_at(code@, (i + 1) as nat) > u64::MAX);
                    }
                    return false;
                }
                offset = offset + 1;
            },
        }
        proof {
            assert forall|k: nat| k <= i + 1 implies #[trigger] counter_at(code@, k) <= u64::MAX by {
                if k == i + 1 {
                    assert(counter_at(code@, k) == offset);
                }
            }
        }
        i = i + 1;
    }
    true
}

impl Code {
    /// A well-formed program has one address per object and no label name
    /// twice in its table.
    pub open spec fn wf(&self) -> bool {
        &&& self.addr_image@.len() == self.code@.len()
        &&& forall|x: int, y: int|
            0 <= x < y < self.label_table@.len() ==> (#[trigger] self.label_table@[x]).0@
                != (#[trigger] self.label_table@[y]).0@
    }

    /// Assembles `code`: assigns each object its address and builds the label
    /// table. The first object must be an address tag, and label names must be
    /// unique.
    pub fn new(info: CodeInfo, code: Vec<CodeObject>) -> (r: Result<Code, CompileError>)
        requires
            starts_with_mark(code@) ==> addresses_fit(code@),
        ensures
            (r matches Err(CompileError::StartWithAddressTag)) <==> !starts_with_mark(code@),
            starts_with_mark(code@) && (exists|a: int, b: int|
                0 <= a < b < code@.len() && (#[trigger] label_name(code@[a])) is Some
                    && label_name(code@[a]) == #[trigger] label_name(code@[b])) ==> (r matches Err(
                CompileError::DuplicateLabel(m),
            ) && exists|j: int|
                0 <= j < code@.len() && labels_unique_upto(code@, j) && !labels_unique_upto(
                    code@,
                    j + 1,
                ) && #[trigger] label_name(code@[j]) == Some(m@)),
            r is Ok <==> starts_with_mark(code@) && labels_unique_upto(code@, code@.len() as int),
            r matches Err(CompileError::DuplicateLabel(n)) ==> starts_with_mark(code@) && exists|
                j: int,
            |
                0 <= j < code@.len() && labels_unique_upto(code@, j) && !labels_unique_upto(
                    code@,
                    j + 1,
                ) && #[trigger] label_name(code@[j]) == Some(n@),
            r matches Ok(c) ==> {
                &&& c.info == info
                &&& c.code@ == code@
                &&& c.addr_image@.len() == code@.len()
                &&& forall|i: int|
                    0 <= i < code@.len() ==> c.addr_image@[i] == counter_at(code@, i as nat)
                &&& table_view(c.label_table@) == label_entries(
                    code@,
                    c.addr_image@,
                    code@.len(),
                )
                &&& c.wf()
            },
    {
        if code.len() == 0 {
            return Err(CompileError::StartWithAddressTag);
        }
        let mut offset: u64 = match &code[0] {
            CodeObject::AddressTag(a) => *a,
            _ => {
                return Err(CompileError::StartWithAddressTag);
            },
        };
        let mut addr_image: Vec<u64> = Vec::new();
        let mut i: usize = 0;
        while i < code.len()
            invariant
                starts_with_mark(code@),
                addresses_fit(code@),
                i <= code@.len(),
                offset == counter_at(code@, i as nat),
                addr_image@.len() == i,
                forall|k: int| 0 <= k < i ==> addr_image@[k] == counter_at(code@, k as nat),
            decreases code@.len() - i,
        {
            addr_image.push(offset);
            proof {
                assert(counter_at(code@, (i + 1) as nat) <= u64::MAX);
            }
            match &code[i] {
                CodeObject::AddressTag(a) => {
                    offset = *a;
                },
                CodeObject::RawData(_) => {
                    offset = offset + 1;
                },
                CodeObject::Instruction { .. } => {
                    offset = offset + 1;
                },
                CodeObject::LabelTag(_) => {},
            }
            i = i + 1;
        }
        let mut label_table: Vec<(String, u64)> = Vec::new();
        let mut i: usize = 0;
        while i < code.len()
            invariant
                starts_with_mark(code@),
                i <= code@.len(),
                addr_image@.len() == code@.len(),
                labels_unique_upto(code@, i as int),
                table_view(label_table@) == label_entries(code@, addr_image@, i as nat),
            decreases code@.len() - i,
        {
            if let CodeObject::LabelTag(name) = &code[i] {
                let mut a: usize = 0;
                while a < i
                    invariant
                        starts_with_mark(code@),
                        labels_unique_upto(code@, i as int),
                        i < code@.len(),
                        a <= i,
                        label_name(code@[i as int]) == Some(name@),
                        forall|t: int|
                            0 <= t < a ==> #[trigger] label_name(code@[t]) != Some(name@),
                    decreases i - a,
                {
                    if let CodeObject::LabelTag(other) = &code[a] {
                        if *other == *name {
                            proof {
                                assert(label_name(code@[a as int]) == label_name(code@[i as int]));
                                assert(!labels_unique_upto(code@, i + 1));
                            }
                            return Err(CompileError::DuplicateLabel(name.clone()));
                        }
                    }
                    a = a + 1;
                }
                let ghost before = label_table@;
                label_table.push((name.clone(), addr_image[i]));
                proof {
                    assert(table_view(label_table@) =~= table_view(before).push(
                        (name@, addr_image@[i as int]),
                    ));
                }
            }
            i = i + 1;
        }
        proof {
            let objs = code@;
            let src = label_sources(objs, objs.len());
            let entries = label_entries(objs, addr_image@, objs.len());
            lemma_label_sources(objs, addr_image@, objs.len());
            assert forall|x: int, y: int|
                0 <= x < y < label_table@.len() implies (#[trigger] label_table@[x]).0@
                != (#[trigger] label_table@[y]).0@ by {
                assert(table_view(label_table@)[x] == entries[x]);
                assert(table_view(label_table@)[y] == entries[y]);
                assert(src[x] < src[y]);
                assert(label_name(objs[src[x]]) == Some(entries[x].0));
            }
        }
        Ok(Code { info, code, addr_image, label_table })
    }

    /// The address of the label `name`, if the program has one of that name.
    pub fn label_address(&self, name: &String) -> (r: Option<u64>)
        ensures
            r matches Some(a) ==> exists|k: int|
                0 <= k < self.label_table@.len() && #[trigger] table_view(self.label_table@)[k]
                    == (name@, a),
            r is None ==> forall|k: int|
                0 <= k < self.label_table@.len() ==> #[trigger] table_view(
                    self.label_table@,
                )[k].0 != name@,
    {
        let mut k: usize = 0;
        while k < self.label_table.len()
            invariant
                k <= self.label_table@.len(),
                forall|t: int| 0 <= t < k ==> #[trigger] table_view(self.label_table@)[t].0 != name@,
            decreases self.label_table@.len() - k,
        {
            if self.label_table[k].0 == *name {
                let a = self.label_table[k].1;
                proof {
                    assert(table_view(self.label_table@)[k as int] == (name@, a));
                }
                return Some(a);
            }
            k = k + 1;
        }
        None
    }
}

} // verus!
