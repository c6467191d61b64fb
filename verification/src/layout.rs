//! Vertex attribute layouts.
//!
//! A [`Layout`] lists the attributes of one vertex in declaration order and
//! keeps the size of the vertex in bytes. [`Layout::apply`] turns the list
//! into the attribute pointers that a graphics backend is to be given.

use vstd::prelude::*;

verus! {

/// Component types that an attribute can be made of.
#[derive(Copy, Clone, Debug, PartialEq, Eq, Structural)]
pub enum OpenGLType {
    Float,
    Integer,
    Char,
}

impl OpenGLType {
    /// Bytes that one component takes.
    pub open spec fn width(self) -> int {
        match self {
            OpenGLType::Float => 4,
            OpenGLType::Integer => 4,
            OpenGLType::Char => 1,
        }
    }
}

/// One attribute: `count` components of one type.
#[derive(Copy, Clone, Debug, PartialEq, Eq, Structural)]
pub struct LayoutType {
    pub typeenum: OpenGLType,
    pub count: u8,
}

impl LayoutType {
    /// Bytes that the attribute takes in a vertex.
    pub open spec fn bytes(self) -> int {
        self.typeenum.width() * self.count
    }
}

/// Bytes that the attributes `types` take together.
pub open spec fn total_bytes(types: Seq<LayoutType>) -> int
    decreases types.len(),
{
    if types.len() == 0 {
        0
    } else {
        total_bytes(types.drop_last()) + types.last().bytes()
    }
}

/// One more attribute adds its own bytes to the total.
pub proof fn lemma_total_push(types: Seq<LayoutType>, t: LayoutType)
    ensures
        total_bytes(types.push(t)) == total_bytes(types) + t.bytes(),
{
    assert(types.push(t).drop_last() =~= types);
}

/// The first `n` attributes take no more bytes than all of them, and one
/// more of them adds its own bytes.
pub proof fn lemma_total_prefix(types: Seq<LayoutType>, n: int)
    requires
        0 <= n <= types.len(),
    ensures
        0 <= total_bytes(types.take(n)) <= total_bytes(types),
        n < types.len() ==> total_bytes(types.take(n + 1)) == total_bytes(types.take(n))
            + types[n].bytes(),
    decreases types.len() - n,
{
    if n < types.len() {
        lemma_total_prefix(types, n + 1);
        assert(types.take(n + 1).drop_last() =~= types.take(n));
        lemma_total_nonnegative(types.take(n));
    } else {
        assert(types.take(n) =~= types);
        lemma_total_nonnegative(types);
    }
}

/// A total is never negative.
proof fn lemma_total_nonnegative(types: Seq<LayoutType>)
    ensures
        0 <= total_bytes(types),
    decreases types.len(),
{
    if types.len() > 0 {
        lemma_total_nonnegative(types.drop_last());
    }
}

/// The vertex layout: attributes in declaration order, and the size of one
/// vertex in bytes.
#[derive(Debug)]
pub struct Layout {
    pub types: Vec<LayoutType>,
    pub stride: i32,
}

impl Layout {
    /// The stride is the total size of the attributes, and every attribute
    /// has an index that a backend can take.
    pub open spec fn wf(&self) -> bool {
        &&& self.stride == total_bytes(self.types@)
        &&& self.types@.len() <= u32::MAX
    }

    /// A layout without attributes.
    pub fn new() -> (layout: Layout)
        ensures
            layout.wf(),
            layout.types@ == Seq::<LayoutType>::empty(),
            layout.stride == 0,
    {
        Layout { types: Vec::<LayoutType>::new(), stride: 0 }
    }

    /// Appends an attribute of `count` floats.
    pub fn addf(&mut self, count: u8) -> (ret: &mut Self)
        requires
            old(self).wf(),
            old(self).types@.len() < u32::MAX,
            old(self).stride + 4 * count <= i32::MAX,
        ensures
            ret.wf(),
            ret.types@ == old(self).types@.push(LayoutType { typeenum: OpenGLType::Float, count }),
            ret.stride == old(self).stride + 4 * count,
            *final(self) == *final(ret),
    {
        proof {
            lemma_total_push(self.types@, LayoutType { typeenum: OpenGLType::Float, count });
        }
        self.types.push(LayoutType { count, typeenum: OpenGLType::Float });
        self.stride += 4 * (count as i32);
        self
    }

    /// Appends an attribute of `count` integers.
    pub fn addi(&mut self, count: u8) -> (ret: &mut Self)
        requires
            old(self).wf(),
            old(self).types@.len() < u32::MAX,
            old(self).stride + 4 * count <= i32::MAX,
        ensures
            ret.wf(),
            ret.types@ == old(self).types@.push(
                LayoutType { typeenum: OpenGLType::Integer, count },
            ),
            ret.stride == old(self).stride + 4 * count,
            *final(self) == *final(ret),
    {
        proof {
            lemma_total_push(self.types@, LayoutType { typeenum: OpenGLType::Integer, count });
        }
        self.types.push(LayoutType { count, typeenum: OpenGLType::Integer });
        self.stride += 4 * (count as i32);
        self
    }

    /// Appends an attribute of `count` bytes.
    pub fn addc(&mut self, count: u8) -> (ret: &mut Self)
        requires
            old(self).wf(),
            old(self).types@.len() < u32::MAX,
            old(self).stride + count <= i32::MAX,
        ensures
            ret.wf(),
            ret.types@ == old(self).types@.push(LayoutType { typeenum: OpenGLType::Char, count }),
            ret.stride == old(self).stride + count,
            *final(self) == *final(ret),
    {
        proof {
            lemma_total_push(self.types@, LayoutType { typeenum: OpenGLType::Char, count });
        }
        self.types.push(LayoutType { count, typeenum: OpenGLType::Char });
        self.stride += count as i32;
        self
    }

    /// The attribute pointers that realise the layout: one per attribute,
    /// numbered in declaration order, each with the vertex size as its
    /// stride and the bytes of the attributes before it as its offset.
    pub fn apply(&self) -> (pointers: Vec<AttribPointer>)
        requires
            self.wf(),
        ensures
            pointers@.len() == self.types@.len(),
            forall|i: int|
                0 <= i < pointers@.len() ==> #[trigger] pointers@[i] == self.pointer(i),
    {
        let mut pointers: Vec<AttribPointer> = Vec::with_capacity(self.types.len());
        let mut offset: i32 = 0;
        let mut i: usize = 0;
        while i < self.types.len()
            invariant
                self.wf(),
                i <= self.types@.len(),
                offset == total_bytes(self.types@.take(i as int)),
                pointers@.len() == i,
                forall|k: int| 0 <= k < i ==> #[trigger] pointers@[k] == self.pointer(k),
            decreases self.types@.len() - i,
        {
            proof {
                lemma_total_prefix(self.types@, i as int);
                lemma_total_prefix(self.types@, i + 1);
            }
            let t = self.types[i];
            pointers.push(
                AttribPointer {
                    index: i as u32,
                    count: t.count as i32,
                    typeenum: t.typeenum,
                    stride: self.stride,
                    offset,
                },
            );
            match t.typeenum {
                OpenGLType::Float => {
                    offset += 4 * (t.count as i32);
                },
                OpenGLType::Integer => {
                    offset += 4 * (t.count as i32);
                },
                OpenGLType::Char => {
                    offset += t.count as i32;
                },
            }
            i += 1;
        }
        pointers
    }

    /// The pointer of attribute `i`.
    pub open spec fn pointer(&self, i: int) -> AttribPointer {
        AttribPointer {
            index: i as u32,
            count: self.types@[i].count as i32,
            typeenum: self.types@[i].typeenum,
            stride: self.stride,
            offset: total_bytes(self.types@.take(i)) as i32,
        }
    }
}

/// What a backend is told of one attribute: its index, its components, the
/// size of a vertex and where in the vertex the attribute begins.
#[derive(Copy, Clone, Debug, PartialEq, Eq, Structural)]
pub struct AttribPointer {
    pub index: u32,
    pub count: i32,
    pub typeenum: OpenGLType,
    pub stride: i32,
    pub offset: i32,
}

} // verus!
