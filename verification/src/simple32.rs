//! A concrete 32-bit architecture: 16 registers of 4 bytes each.
//!
//! The register file's wire image is the 16 registers in index order, each
//! as four big-endian byte positions, 64 positions in all. A register whose
//! value was never collected is "unknown": its four positions carry the
//! explicit unknown marker, never a zero byte, and the marker round-trips
//! losslessly through serialization.

use vstd::prelude::*;

use crate::arch::{Arch, Registers};
use crate::bytes::{be32, BeBytes};

verus! {

/// Number of registers in the file.
pub const REG_COUNT: usize = 16;

/// Bytes per register on the wire.
pub const REG_BYTES: usize = 4;

/// Total register width in bytes: every serialization has exactly this
/// length.
pub const WIRE_WIDTH: usize = 64;

/// The wire image of one register: four big-endian byte positions for a
/// known value, four unknown markers otherwise.
pub open spec fn reg_wire(r: Option<u32>) -> Seq<Option<u8>> {
    match r {
        Option::Some(v) => Seq::new(4, |i: int| Some(be32(v)[i])),
        Option::None => Seq::new(4, |i: int| Option::<u8>::None),
    }
}

/// The wire image of a whole register sequence, in index order.
pub open spec fn file_wire(rs: Seq<Option<u32>>) -> Seq<Option<u8>>
    decreases rs.len(),
{
    if rs.len() == 0 {
        Seq::empty()
    } else {
        reg_wire(rs[0]) + file_wire(rs.drop_first())
    }
}

/// The wire image is always four bytes per register, whatever is unknown.
pub proof fn lemma_file_wire_len(rs: Seq<Option<u32>>)
    ensures
        file_wire(rs).len() == 4 * rs.len(),
    decreases rs.len(),
{
    if rs.len() != 0 {
        lemma_file_wire_len(rs.drop_first());
    }
}

/// The wire image of a concatenation is the concatenation of the images.
pub proof fn lemma_file_wire_append(a: Seq<Option<u32>>, b: Seq<Option<u32>>)
    ensures
        file_wire(a + b) == file_wire(a) + file_wire(b),
    decreases a.len(),
{
    if a.len() == 0 {
        assert(a + b =~= b);
        assert(file_wire(a) + file_wire(b) =~= file_wire(b));
    } else {
        assert((a + b).len() != 0);
        assert((a + b)[0] == a[0]);
        assert((a + b).drop_first() =~= a.drop_first() + b);
        lemma_file_wire_append(a.drop_first(), b);
        assert(reg_wire(a[0]) + (file_wire(a.drop_first()) + file_wire(b)) =~= (reg_wire(a[0])
            + file_wire(a.drop_first())) + file_wire(b));
    }
}

/// Extending a prefix by one register appends that register's image.
pub proof fn lemma_file_wire_take_succ(rs: Seq<Option<u32>>, i: int)
    requires
        0 <= i < rs.len(),
    ensures
        file_wire(rs.take(i + 1)) == file_wire(rs.take(i)) + reg_wire(rs[i]),
{
    assert(rs.take(i + 1) =~= rs.take(i) + seq![rs[i]]);
    lemma_file_wire_append(rs.take(i), seq![rs[i]]);
    let s = seq![rs[i]];
    assert(s.drop_first().len() == 0);
    assert(file_wire(s.drop_first()) =~= Seq::<Option<u8>>::empty());
    assert(file_wire(s) == reg_wire(s[0]) + file_wire(s.drop_first()));
    assert(reg_wire(s[0]) + file_wire(s.drop_first()) =~= reg_wire(rs[i]));
}

/// Position `4 * i + j` of the wire image belongs to register `i`.
pub proof fn lemma_file_wire_index(rs: Seq<Option<u32>>, i: int, j: int)
    requires
        0 <= i < rs.len(),
        0 <= j < 4,
    ensures
        file_wire(rs)[4 * i + j] == reg_wire(rs[i])[j],
    decreases i,
{
    lemma_file_wire_len(rs.drop_first());
    if i == 0 {
        assert(reg_wire(rs[0]).len() == 4);
    } else {
        lemma_file_wire_index(rs.drop_first(), i - 1, j);
        assert(rs.drop_first()[i - 1] == rs[i]);
        assert(reg_wire(rs[0]).len() == 4);
        assert(file_wire(rs)[4 * i + j] == file_wire(rs.drop_first())[4 * (i - 1) + j]);
    }
}

/// Register images are distinguishable: equal images mean equal registers.
pub proof fn lemma_reg_wire_injective(x: Option<u32>, y: Option<u32>)
    requires
        reg_wire(x) == reg_wire(y),
    ensures
        x == y,
{
    match (x, y) {
        (Option::Some(a), Option::Some(b)) => {
            assert forall|j: int| 0 <= j < 4 implies be32(a)[j] == be32(b)[j] by {
                assert(reg_wire(x)[j] == reg_wire(y)[j]);
            }
            assert(be32(a) =~= be32(b));
            a.lemma_be_spec_injective(b);
        }
        (Option::Some(a), Option::None) => {
            assert(reg_wire(x)[0] is Some);
            assert(reg_wire(y)[0] is None);
        }
        (Option::None, Option::Some(b)) => {
            assert(reg_wire(x)[0] is None);
            assert(reg_wire(y)[0] is Some);
        }
        (Option::None, Option::None) => {
        }
    }
}

/// The whole wire image is injective: two register sequences of the same
/// length with the same image are equal.
pub proof fn lemma_file_wire_injective(r1: Seq<Option<u32>>, r2: Seq<Option<u32>>)
    requires
        r1.len() == r2.len(),
        file_wire(r1) == file_wire(r2),
    ensures
        r1 == r2,
    decreases r1.len(),
{
    if r1.len() == 0 {
        assert(r1 =~= r2);
    } else {
        lemma_file_wire_len(r1.drop_first());
        lemma_file_wire_len(r2.drop_first());
        assert(reg_wire(r1[0]).len() == 4);
        assert(reg_wire(r2[0]).len() == 4);
        assert(reg_wire(r1[0]) =~= file_wire(r1).subrange(0, 4));
        assert(reg_wire(r2[0]) =~= file_wire(r2).subrange(0, 4));
        lemma_reg_wire_injective(r1[0], r2[0]);
        assert(file_wire(r1.drop_first()) =~= file_wire(r1).subrange(
            4,
            file_wire(r1).len() as int,
        ));
        assert(file_wire(r2.drop_first()) =~= file_wire(r2).subrange(
            4,
            file_wire(r2).len() as int,
        ));
        lemma_file_wire_injective(r1.drop_first(), r2.drop_first());
        assert forall|i: int| 0 <= i < r1.len() implies r1[i] == r2[i] by {
            if i != 0 {
                assert(r1.drop_first()[i - 1] == r1[i]);
                assert(r2.drop_first()[i - 1] == r2[i]);
            }
        }
        assert(r1 =~= r2);
    }
}

/// A fully known register sequence has a fully known wire image.
pub proof fn lemma_file_wire_all_known(rs: Seq<Option<u32>>)
    requires
        forall|i: int| 0 <= i < rs.len() ==> rs[i] is Some,
    ensures
        forall|j: int| 0 <= j < file_wire(rs).len() ==> file_wire(rs)[j] is Some,
    decreases rs.len(),
{
    if rs.len() != 0 {
        assert(rs.drop_first().len() == rs.len() - 1);
        assert forall|i: int| 0 <= i < rs.drop_first().len() implies rs.drop_first()[i] is Some by {
            assert(rs.drop_first()[i] == rs[i + 1]);
        }
        lemma_file_wire_all_known(rs.drop_first());
        assert(reg_wire(rs[0]).len() == 4);
        assert forall|j: int| 0 <= j < file_wire(rs).len() implies file_wire(rs)[j] is Some by {
            if j < 4 {
                assert(rs[0] is Some);
                assert(file_wire(rs)[j] == reg_wire(rs[0])[j]);
            } else {
                assert(file_wire(rs)[j] == file_wire(rs.drop_first())[j - 4]);
            }
        }
    }
}

/// The register file of the [`Simple32`] architecture: 16 registers of 32
/// bits, each either a known value or unknown ("uncollected").
pub struct Simple32Regs {
    regs: Vec<Option<u32>>,
}

impl View for Simple32Regs {
    type V = Seq<Option<u32>>;

    closed spec fn view(&self) -> Seq<Option<u32>> {
        self.regs@
    }
}

impl Simple32Regs {
    /// Every register is known.
    pub open spec fn all_known(&self) -> bool {
        forall|i: int| 0 <= i < self@.len() ==> self@[i] is Some
    }

    /// A file with every register unknown.
    pub fn new_unknown() -> (r: Self)
        ensures
            r.inv(),
            forall|i: int| 0 <= i < 16 ==> r@[i] is None,
    {
        let mut regs: Vec<Option<u32>> = Vec::new();
        let mut i: usize = 0;
        while i < REG_COUNT
            invariant
                i <= 16,
                regs@.len() == i,
                forall|k: int| 0 <= k < i ==> regs@[k] is None,
            decreases 16 - i,
        {
            regs.push(None);
            i = i + 1;
        }
        Simple32Regs { regs }
    }

    /// Read register `i`.
    pub fn get_reg(&self, i: usize) -> (r: Option<u32>)
        requires
            self.inv(),
            i < 16,
        ensures
            r == self@[i as int],
    {
        self.regs[i]
    }

    /// Set register `i` to a known value or back to unknown.
    pub fn set_reg(&mut self, i: usize, v: Option<u32>)
        requires
            old(self).inv(),
            i < 16,
        ensures
            final(self).inv(),
            final(self)@ == old(self)@.update(i as int, v),
    {
        self.regs.set(i, v);
    }
}

impl Default for Simple32Regs {
    /// A fresh file with every register unknown.
    fn default() -> (r: Self)
        ensures
            r.inv(),
            forall|i: int| 0 <= i < 16 ==> r@[i] is None,
    {
        Simple32Regs::new_unknown()
    }
}

impl Registers for Simple32Regs {
    open spec fn wire(&self) -> Seq<Option<u8>> {
        file_wire(self@)
    }

    open spec fn wire_width() -> nat {
        64
    }

    open spec fn inv(&self) -> bool {
        self@.len() == 16
    }

    open spec fn decodable(bytes: Seq<u8>) -> bool {
        true
    }

    fn gdb_serialize(&self) -> (out: Vec<Option<u8>>) {
        let mut out: Vec<Option<u8>> = Vec::new();
        let mut i: usize = 0;
        while i < REG_COUNT
            invariant
                self.inv(),
                i <= 16,
                out@ == file_wire(self@.take(i as int)),
            decreases 16 - i,
        {
            let ghost prefix = out@;
            match self.regs[i] {
                Some(v) => {
                    let b = v.to_be_byte_vec();
                    out.push(Some(b[0]));
                    out.push(Some(b[1]));
                    out.push(Some(b[2]));
                    out.push(Some(b[3]));
                    proof {
                        assert(out@ =~= prefix + reg_wire(self@[i as int]));
                    }
                }
                None => {
                    out.push(None);
                    out.push(None);
                    out.push(None);
                    out.push(None);
                    proof {
                        assert(out@ =~= prefix + reg_wire(self@[i as int]));
                    }
                }
            }
            proof {
                lemma_file_wire_take_succ(self@, i as int);
            }
            i = i + 1;
        }
        proof {
            assert(self@.take(16) =~= self@);
            lemma_file_wire_len(self@);
        }
        out
    }

    fn gdb_deserialize(&mut self, bytes: &[u8]) -> (r: Result<(), ()>) {
        if bytes.len() != WIRE_WIDTH {
            return Err(());
        }
        let ghost target = Seq::new(bytes@.len(), |j: int| Some(bytes@[j]));
        let mut i: usize = 0;
        while i < REG_COUNT
            invariant
                self.inv(),
                i <= 16,
                bytes@.len() == 64,
                target == Seq::new(bytes@.len(), |j: int| Some(bytes@[j])),
                file_wire(self@.take(i as int)) == target.take(4 * i as int),
            decreases 16 - i,
        {
            let mut chunk: Vec<u8> = Vec::new();
            chunk.push(bytes[4 * i]);
            chunk.push(bytes[4 * i + 1]);
            chunk.push(bytes[4 * i + 2]);
            chunk.push(bytes[4 * i + 3]);
            let vo = <u32 as BeBytes>::from_be_byte_vec(&chunk);
            let v = vo.unwrap();
            let ghost before = self@;
            self.regs.set(i, Some(v));
            proof {
                assert(self@.take(i as int) =~= before.take(i as int));
                lemma_file_wire_take_succ(self@, i as int);
                assert(self@.take(i as int + 1) =~= before.take(i as int) + seq![
                    Option::Some(v),
                ]);
                assert(chunk@ =~= be32(v));
                assert forall|j: int| 0 <= j < 4 implies reg_wire(Option::Some(v))[j] == target[4
                    * i + j] by {
                    assert(be32(v)[j] == chunk@[j]);
                }
                assert(file_wire(self@.take(i as int + 1)) =~= target.take(4 * (i as int) + 4));
            }
            i = i + 1;
        }
        proof {
            assert(self@.take(16) =~= self@);
            assert(target.take(64) =~= target);
        }
        Ok(())
    }
}

/// The forced byte at a wire position: the byte itself at a known position,
/// a zero placeholder at an unknown one. Meaningful for stripping a fully
/// known image down to plain bytes.
pub open spec fn forced(o: Option<u8>) -> u8 {
    match o {
        Option::Some(b) => b,
        Option::None => 0,
    }
}

/// The plain bytes of a wire image, position by position.
pub open spec fn concrete_wire_bytes(w: Seq<Option<u8>>) -> Seq<u8> {
    Seq::new(w.len(), |i: int| forced(w[i]))
}

/// Round trip: for a register file `r1` with no unknown fields, feeding the
/// bytes of `gdb_serialize`'s output back through `gdb_deserialize`
/// reproduces `r1` exactly. `r2` stands for the file the deserialization
/// produced: its wire image is what `gdb_deserialize` ensures when given
/// those bytes.
pub proof fn lemma_round_trip(r1: Simple32Regs, r2: Simple32Regs)
    requires
        r1.inv(),
        r1.all_known(),
        r2.inv(),
        r2.wire() == Seq::new(
            concrete_wire_bytes(r1.wire()).len(),
            |i: int| Some(concrete_wire_bytes(r1.wire())[i]),
        ),
    ensures
        r2@ == r1@,
{
    lemma_file_wire_all_known(r1@);
    lemma_file_wire_len(r1@);
    assert(r2.wire() =~= r1.wire());
    lemma_file_wire_injective(r2@, r1@);
}

/// Unknown preservation: a register marked unknown appears in the wire
/// image as four explicit unknown markers — never as zero bytes — so a
/// protocol engine that renders markers as unencoded placeholders can never
/// hand the positions back to `gdb_deserialize` as concrete values.
pub proof fn lemma_unknown_preserved(r: Simple32Regs, i: int, j: int)
    requires
        r.inv(),
        0 <= i < 16,
        r@[i] is None,
        0 <= j < 4,
    ensures
        r.wire()[4 * i + j] is None,
{
    lemma_file_wire_index(r@, i, j);
}

/// A 32-bit demonstration architecture: 16 four-byte registers, big-endian
/// wire order, with a target-description document for automatic detection.
#[derive(PartialEq, Eq)]
pub struct Simple32;

/// The text of the target-description document the [`Simple32`]
/// architecture offers for automatic detection.
pub open spec fn simple32_description() -> Seq<char> {
    "<target version=\"1.0\"><architecture>simple32</architecture></target>"@
}

impl Arch for Simple32 {
    type Usize = u32;

    type Registers = Simple32Regs;

    open spec fn has_description() -> bool {
        true
    }

    open spec fn description() -> Seq<char> {
        simple32_description()
    }

    fn target_description_xml() -> (r: Option<&'static str>) {
        Some("<target version=\"1.0\"><architecture>simple32</architecture></target>")
    }
}

/// The same machine without a target-description document: an architecture
/// that opts out of automatic detection, so the debugger user must set the
/// architecture manually.
#[derive(PartialEq, Eq)]
pub struct Simple32Manual;

impl Arch for Simple32Manual {
    type Usize = u32;

    type Registers = Simple32Regs;

    open spec fn has_description() -> bool {
        false
    }

    open spec fn description() -> Seq<char> {
        Seq::empty()
    }

    fn target_description_xml() -> (r: Option<&'static str>) {
        None
    }
}

} // verus!
