use crate::codec::{leb_bytes, leb_encode};
use crate::hints::{dir_code, HintDirection};
use vstd::prelude::*;

verus! {

/// One hinted branch: the direction and the byte offset of the hinted
/// instruction's opcode, measured from the first byte of the function body's
/// instruction stream.
#[derive(Clone, Copy, Debug, PartialEq, Eq, Structural)]
pub struct BranchRecord {
    pub dir: HintDirection,
    pub offset: u64,
}

/// The hints of one function, keyed by its absolute function index (imported
/// functions counted first). `branches` is never empty in an emitted section.
pub struct FunctionHints {
    pub function_index: u32,
    pub branches: Vec<BranchRecord>,
}

/// Mathematical model of `FunctionHints`.
pub struct FuncHintsModel {
    pub function_index: u32,
    pub branches: Seq<BranchRecord>,
}

impl View for FunctionHints {
    type V = FuncHintsModel;

    open spec fn view(&self) -> FuncHintsModel {
        FuncHintsModel { function_index: self.function_index, branches: self.branches@ }
    }
}

/// The whole custom section to be emitted: per-function hint lists in
/// declaration order.
pub struct BranchHintsSection {
    pub functions: Vec<FunctionHints>,
}

impl View for BranchHintsSection {
    type V = Seq<FuncHintsModel>;

    open spec fn view(&self) -> Seq<FuncHintsModel> {
        self.functions@.map_values(|f: FunctionHints| f@)
    }
}

/// The custom section's name, the ASCII bytes of "branchHints".
pub open spec fn section_name() -> Seq<u8> {
    seq![98u8, 114u8, 97u8, 110u8, 99u8, 104u8, 72u8, 105u8, 110u8, 116u8, 115u8]
}

/// Wire bytes of one branch: direction varint then offset varint.
pub open spec fn branch_bytes(b: BranchRecord) -> Seq<u8> {
    leb_bytes(dir_code(b.dir) as nat) + leb_bytes(b.offset as nat)
}

pub open spec fn branches_bytes(s: Seq<BranchRecord>) -> Seq<u8>
    decreases s.len(),
{
    if s.len() == 0 {
        Seq::empty()
    } else {
        branches_bytes(s.drop_last()) + branch_bytes(s.last())
    }
}

/// Wire bytes of one function's hints: absolute index, the reserved varint
/// (always written 0, kept for forward compatibility), branch count, branches.
pub open spec fn func_bytes(f: FuncHintsModel) -> Seq<u8> {
    leb_bytes(f.function_index as nat) + leb_bytes(0) + leb_bytes(f.branches.len())
        + branches_bytes(f.branches)
}

pub open spec fn funcs_bytes(s: Seq<FuncHintsModel>) -> Seq<u8>
    decreases s.len(),
{
    if s.len() == 0 {
        Seq::empty()
    } else {
        funcs_bytes(s.drop_last()) + func_bytes(s.last())
    }
}

/// The custom section's payload: name length, name, function count, functions.
pub open spec fn payload_bytes(s: Seq<FuncHintsModel>) -> Seq<u8> {
    leb_bytes(11) + section_name() + leb_bytes(s.len()) + funcs_bytes(s)
}

/// The complete custom section: id byte 0, payload size varint, payload.
pub open spec fn section_bytes(s: Seq<FuncHintsModel>) -> Seq<u8> {
    seq![0u8] + leb_bytes(payload_bytes(s).len()) + payload_bytes(s)
}

proof fn lemma_branches_bytes_snoc(s: Seq<BranchRecord>, i: int)
    requires
        0 <= i < s.len(),
    ensures
        branches_bytes(s.take(i + 1)) == branches_bytes(s.take(i)) + branch_bytes(s[i]),
{
    assert(s.take(i + 1).drop_last() =~= s.take(i));
    assert(s.take(i + 1).last() == s[i]);
}

proof fn lemma_funcs_bytes_snoc(s: Seq<FuncHintsModel>, i: int)
    requires
        0 <= i < s.len(),
    ensures
        funcs_bytes(s.take(i + 1)) == funcs_bytes(s.take(i)) + func_bytes(s[i]),
{
    assert(s.take(i + 1).drop_last() =~= s.take(i));
    assert(s.take(i + 1).last() == s[i]);
}

impl BranchHintsSection {
    /// Serializes the section exactly as `section_bytes` states: the payload
    /// is built first, then prefixed with the id byte and its own size.
    #[verifier::rlimit(80)]
    #[verifier::loop_isolation(false)]
    pub fn write(&self) -> (r: Vec<u8>)
        ensures
            r@ == section_bytes(self@),
    {
        let mut data: Vec<u8> = Vec::new();
        leb_encode(11, &mut data);
        data.push(98);
        data.push(114);
        data.push(97);
        data.push(110);
        data.push(99);
        data.push(104);
        data.push(72);
        data.push(105);
        data.push(110);
        data.push(116);
        data.push(115);
        proof {
            assert(leb_bytes(11) == seq![11u8]);
            assert(data@ =~= leb_bytes(11) + section_name());
        }
        leb_encode(self.functions.len() as u64, &mut data);
        let ghost head = leb_bytes(11) + section_name() + leb_bytes(self@.len());
        proof {
            assert(funcs_bytes(self@.take(0)) =~= Seq::<u8>::empty());
            assert(data@ =~= head + funcs_bytes(self@.take(0)));
        }
        let mut i: usize = 0;
        while i < self.functions.len()
            invariant
                i <= self.functions@.len(),
                self@.len() == self.functions@.len(),
                head == leb_bytes(11) + section_name() + leb_bytes(self@.len()),
                data@ == head + funcs_bytes(self@.take(i as int)),
            decreases self.functions@.len() - i,
        {
            let f = &self.functions[i];
            assert(f@ == self@[i as int]);
            let ghost fhead = data@;
            leb_encode(f.function_index as u64, &mut data);
            leb_encode(0, &mut data);
            leb_encode(f.branches.len() as u64, &mut data);
            let ghost bhead = data@;
            proof {
                assert(branches_bytes(f.branches@.take(0)) =~= Seq::<u8>::empty());
                assert(data@ =~= bhead + branches_bytes(f.branches@.take(0)));
            }
            let mut j: usize = 0;
            while j < f.branches.len()
                invariant
                    j <= f.branches@.len(),
                    data@ == bhead + branches_bytes(f.branches@.take(j as int)),
                decreases f.branches@.len() - j,
            {
                let b = f.branches[j];
                let c: u64 = match b.dir {
                    HintDirection::Likely => 1,
                    HintDirection::Unlikely => 0,
                };
                assert(c == dir_code(b.dir));
                leb_encode(c, &mut data);
                leb_encode(b.offset, &mut data);
                proof {
                    lemma_branches_bytes_snoc(f.branches@, j as int);
                    assert(data@ =~= bhead + branches_bytes(f.branches@.take(j as int + 1)));
                }
                j = j + 1;
            }
            proof {
                assert(f.branches@.take(f.branches@.len() as int) =~= f.branches@);
                assert(data@ =~= fhead + func_bytes(f@));
                lemma_funcs_bytes_snoc(self@, i as int);
                assert(data@ =~= head + funcs_bytes(self@.take(i as int + 1)));
            }
            i = i + 1;
        }
        proof {
            assert(self@.take(self@.len() as int) =~= self@);
            assert(data@ =~= payload_bytes(self@));
        }
        let mut out: Vec<u8> = Vec::new();
        out.push(0);
        leb_encode(data.len() as u64, &mut out);
        proof {
            assert(out@ =~= seq![0u8] + leb_bytes(payload_bytes(self@).len()));
        }
        out.append(&mut data);
        proof {
            assert(out@ =~= section_bytes(self@));
        }
        out
    }
}

} // verus!
