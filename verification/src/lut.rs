//! The shape of a Cube LUT: the size of its grid, the order in which its
//! entries are written, and what its title may hold.

use vstd::arithmetic::div_mod::{lemma_fundamental_div_mod, lemma_fundamental_div_mod_converse};
use vstd::prelude::*;
use vstd::string::StringSliceAdditionalSpecFns;

verus! {

broadcast use vstd::slice::group_slice_axioms;

/// The smallest grid size of a LUT.
pub const SIZE_MIN: usize = 2;

/// The largest grid size of a LUT.
pub const SIZE_MAX: usize = 256;

/// The longest title of a LUT, in bytes.
pub const TITLE_MAX: usize = 242;

/// The byte of the double quotation mark, which delimits a title.
pub const QUOTATION_MARK: u8 = 0x22;

/// Why a text cannot be the title of a LUT.
#[derive(Debug, Clone, Copy, PartialEq, Eq, Structural)]
pub enum TitleError {
    /// It holds a double quotation mark.
    QuotationMark,
    /// It is longer than `TITLE_MAX` bytes.
    TooLong,
}

/// What is wrong with a title, if anything. The quotation mark is looked for
/// first.
pub open spec fn title_error(bytes: Seq<u8>) -> Option<TitleError> {
    if bytes.contains(QUOTATION_MARK) {
        Some(TitleError::QuotationMark)
    } else if bytes.len() > TITLE_MAX {
        Some(TitleError::TooLong)
    } else {
        None
    }
}

/// Checks that `title` can stand between quotation marks in the `TITLE` line.
pub fn check_title(title: &str) -> (r: Result<(), TitleError>)
    ensures
        r == match title_error(title.spec_bytes()) {
            None => Ok::<(), TitleError>(()),
            Some(e) => Err(e),
        },
{
    let bytes = title.as_bytes();
    let mut i: usize = 0;
    while i < bytes.len()
        invariant
            i <= bytes.len(),
            bytes@ == title.spec_bytes(),
            forall|j: int| 0 <= j < i ==> bytes@[j] != QUOTATION_MARK,
        decreases bytes.len() - i,
    {
        if bytes[i] == QUOTATION_MARK {
            assert(bytes@.contains(QUOTATION_MARK));
            return Err(TitleError::QuotationMark);
        }
        i = i + 1;
    }
    if bytes.len() > TITLE_MAX {
        Err(TitleError::TooLong)
    } else {
        Ok(())
    }
}

/// A grid point of a LUT, by its index along each axis.
#[derive(Debug, Clone, Copy, PartialEq, Eq, Structural)]
pub struct Node {
    pub red: usize,
    pub green: usize,
    pub blue: usize,
}

/// The place of a grid point in the file: red varies fastest, then green,
/// then blue.
pub open spec fn node_index(size: int, node: Node) -> int {
    node.red + size * (node.green + size * node.blue)
}

/// The grid point written at place `index` of the file.
pub open spec fn node_at(size: int, index: int) -> Node {
    Node {
        red: (index % size) as usize,
        green: (index / size % size) as usize,
        blue: (index / size / size) as usize,
    }
}

/// Whether a grid point lies on the grid.
pub open spec fn on_grid(size: int, node: Node) -> bool {
    node.red < size && node.green < size && node.blue < size
}

/// The grid of a LUT of a valid size.
#[derive(Debug, Clone, Copy, PartialEq, Eq)]
pub struct LutGrid {
    size: usize,
}

impl LutGrid {
    /// The number of grid points along each axis.
    pub closed spec fn spec_size(&self) -> int {
        self.size as int
    }

    #[verifier::type_invariant]
    spec fn in_range(&self) -> bool {
        SIZE_MIN <= self.size <= SIZE_MAX
    }

    /// The grid of the given size, which must be from `SIZE_MIN` to
    /// `SIZE_MAX`.
    pub fn new(size: usize) -> (grid: Option<LutGrid>)
        ensures
            grid.is_some() == (SIZE_MIN <= size <= SIZE_MAX),
            grid matches Some(g) ==> g.spec_size() == size,
    {
        if SIZE_MIN <= size && size <= SIZE_MAX {
            Some(LutGrid { size })
        } else {
            None
        }
    }

    /// The number of grid points along each axis.
    pub fn size(&self) -> (size: usize)
        ensures
            size == self.spec_size(),
            SIZE_MIN <= size <= SIZE_MAX,
    {
        proof {
            use_type_invariant(self);
        }
        self.size
    }

    /// The number of entries of the LUT: the cube of its size.
    pub fn len(&self) -> (len: usize)
        ensures
            len == self.spec_size() * self.spec_size() * self.spec_size(),
    {
        proof {
            use_type_invariant(self);
            let n = self.size as int;
            assert(n * n <= 256 * 256 && n * n * n <= 256 * 256 * 256) by (nonlinear_arith)
                requires
                    0 <= n <= 256,
            ;
        }
        self.size * self.size * self.size
    }

    /// The grid point of entry `index`, where the LUT has that many entries.
    pub fn node(&self, index: usize) -> (node: Option<Node>)
        ensures
            node == if index < self.spec_size() * self.spec_size() * self.spec_size() {
                Some(node_at(self.spec_size(), index as int))
            } else {
                None
            },
    {
        if index < self.len() {
            proof {
                use_type_invariant(self);
            }
            let n = self.size;
            Some(Node { red: index % n, green: index / n % n, blue: index / n / n })
        } else {
            None
        }
    }
}

/// The entries of a LUT are its grid points, each once: entry `index` is a
/// point of the grid, and its place in the file is `index`.
pub proof fn lemma_node_at_index(size: int, index: int)
    requires
        SIZE_MIN <= size <= SIZE_MAX,
        0 <= index < size * size * size,
    ensures
        on_grid(size, node_at(size, index)),
        node_index(size, node_at(size, index)) == index,
{
    let row = index / size;
    lemma_fundamental_div_mod(index, size);
    lemma_fundamental_div_mod(row, size);
    assert(0 <= row / size < size) by (nonlinear_arith)
        requires
            size >= 1,
            0 <= index < size * size * size,
            row == index / size,
    ;
}

/// Every grid point has an entry: its place in the file is below the number
/// of entries, and the entry there is that point.
pub proof fn lemma_node_index_at(size: int, node: Node)
    requires
        SIZE_MIN <= size <= SIZE_MAX,
        on_grid(size, node),
    ensures
        0 <= node_index(size, node) < size * size * size,
        node_at(size, node_index(size, node)) == node,
{
    let row = node.green + size * node.blue;
    let index = node.red + size * row;
    assert(0 <= row < size * size && 0 <= index < size * size * size && index == row * size
        + node.red && row == node.blue * size + node.green) by (nonlinear_arith)
        requires
            size >= 1,
            0 <= node.red < size,
            0 <= node.green < size,
            0 <= node.blue < size,
            row == node.green + size * node.blue,
            index == node.red + size * row,
    ;
    lemma_fundamental_div_mod_converse(index, size, row, node.red as int);
    lemma_fundamental_div_mod_converse(row, size, node.blue as int, node.green as int);
}

} // verus!
