use vstd::prelude::*;

use crate::color::{Alpha, Paint, Rgba};
use crate::flat::{cut_all, shapes_of, Prism};
use crate::geom::{all_wf, Geom3};
use crate::math::Vec3;

verus! {

/// Size or children of the prism
#[derive(Debug, PartialEq, Eq)]
pub enum TreeType {
    Size(Vec3<u32>),
    Group(Vec<TreeNode>),
}

/// A node of a prism tree: a prism, or a group of nodes
#[derive(Debug, PartialEq, Eq)]
pub struct TreeNode {
    /// Color of the shape
    ///
    /// None to inherit from parent
    pub color: Option<Paint>,
    /// Whether to cut the prism
    ///
    /// Cut means the prism is subtracted from the parent
    pub cut: bool,
    /// Exclude the prism from output
    pub hidden: bool,
    /// Position of the prism relative to its parent
    pub pos: Vec3<i32>,
    /// Size or children of the prism
    pub tree: TreeType,
}

/// Prism configuration tree
#[derive(Debug, PartialEq, Eq)]
pub struct PrismTree {
    /// Color of the shades of the 3 sides
    pub shader: Vec3<Option<Paint>>,
    /// Root color of the whole shape
    pub color: Paint,
    /// Root position
    pub pos: Vec3<i32>,
    /// Prisms in the shape
    pub prism: Option<Vec<TreeNode>>,
}

/// The packed form of black with the alpha of the default shader of the X
/// direction, 0.15
pub const SHADER_X_RGBA: u32 = 0x0000_0026;

/// The packed form of black with the alpha of the default shader of the Y
/// direction, 0.4
pub const SHADER_Y_RGBA: u32 = 0x0000_0066;

/// The default shader of the X direction: black with alpha 0.15, number 0
/// of a palette
pub open spec fn default_shader_x() -> Paint {
    Paint { id: 0, rgba: Rgba::spec_new(SHADER_X_RGBA), alpha: Alpha::Partial }
}

/// The default shader of the Y direction: black with alpha 0.4, number 1 of
/// a palette
pub open spec fn default_shader_y() -> Paint {
    Paint { id: 1, rgba: Rgba::spec_new(SHADER_Y_RGBA), alpha: Alpha::Partial }
}

/// The default shader of the Z direction: clear, number 2 of a palette
pub open spec fn default_shader_z() -> Paint {
    Paint { id: 2, rgba: Rgba::spec_new(0), alpha: Alpha::Clear }
}

/// The colour, or `default` where there is none
pub open spec fn or_default(color: Option<Paint>, default: Paint) -> Paint {
    match color {
        Some(c) => c,
        None => default,
    }
}

/// The default shader colours, for the directions X, Y and Z
pub fn default_shader() -> (r: Vec3<Paint>)
    ensures
        r == Vec3(default_shader_x(), default_shader_y(), default_shader_z()),
{
    Vec3(
        Paint { id: 0, rgba: Rgba::new(SHADER_X_RGBA), alpha: Alpha::Partial },
        Paint { id: 1, rgba: Rgba::new(SHADER_Y_RGBA), alpha: Alpha::Partial },
        Paint { id: 2, rgba: Rgba::new(0), alpha: Alpha::Clear },
    )
}

/// A position moved by an offset, component by component
pub open spec fn moved(pos: Vec3<i32>, offset: Vec3<i32>) -> Vec3<i32> {
    Vec3((pos.0 + offset.0) as i32, (pos.1 + offset.1) as i32, (pos.2 + offset.2) as i32)
}

/// The prisms of the first `n` children of a group at `offset` with the
/// colour `color`: a child that is no cut adds its prisms, a cut takes its
/// prisms from those that came before it
pub open spec fn group_prisms(children: Seq<TreeNode>, n: int, offset: Vec3<i32>, color: Paint) -> Seq<
    Prism,
>
    decreases children, n,
{
    if n <= 0 || n > children.len() {
        Seq::empty()
    } else {
        let before = group_prisms(children, n - 1, offset, color);
        let child = children[n - 1];
        if child.cut {
            cut_all(before, shapes_of(child.prisms(offset, color)))
        } else {
            before + child.prisms(offset, color)
        }
    }
}

/// Whether the first `n` children of a group fit at `offset`
pub open spec fn group_fits(children: Seq<TreeNode>, n: int, offset: Vec3<i32>) -> bool
    decreases children, n,
{
    if n <= 0 || n > children.len() {
        true
    } else {
        group_fits(children, n - 1, offset) && children[n - 1].fits(offset)
    }
}

impl TreeNode {
    /// The prisms of the node below a parent at `offset` with the colour
    /// `parent_color`: none for a hidden node; for a size, the prism at the
    /// position of the node moved by the offset, in the colour of the node or
    /// else of its parent, where every size is positive; for a group, the
    /// prisms of its children
    pub open spec fn prisms(self, offset: Vec3<i32>, parent_color: Paint) -> Seq<Prism>
        decreases self,
    {
        if self.hidden {
            Seq::empty()
        } else {
            let color = or_default(self.color, parent_color);
            let at = moved(self.pos, offset);
            match self.tree {
                TreeType::Size(size) => if size.0 > 0 && size.1 > 0 && size.2 > 0 {
                    seq![Prism { color, shape: Geom3 { size, pos: at } }]
                } else {
                    Seq::empty()
                },
                TreeType::Group(children) => group_prisms(children@, children@.len() as int, at, color),
            }
        }
    }

    /// Whether the node fits below a parent at `offset`: but for hidden
    /// nodes, every position and every prism lies within the coordinates
    pub open spec fn fits(self, offset: Vec3<i32>) -> bool
        decreases self,
    {
        if self.hidden {
            true
        } else {
            let at = moved(self.pos, offset);
            &&& self.pos.can_add(offset)
            &&& match self.tree {
                TreeType::Size(size) => (Geom3 { size, pos: at }).wf(),
                TreeType::Group(children) => group_fits(children@, children@.len() as int, at),
            }
        }
    }

    /// Whether `render_into` accepts the node at `offset`
    pub fn fits_at(&self, offset: Vec3<i32>) -> (r: bool)
        ensures
            r == self.fits(offset),
        decreases self,
    {
        if self.hidden {
            return true;
        }
        let at = match self.pos.checked_add(offset) {
            Some(at) => at,
            None => {
                return false;
            },
        };
        match &self.tree {
            TreeType::Size(size) => Geom3::new(at, *size).is_valid(),
            TreeType::Group(children) => {
                let n = children.len();
                let mut i: usize = 0;
                while i < n
                    invariant
                        n == children@.len(),
                        i <= n,
                        !self.hidden,
                        self.pos.can_add(offset),
                        at == moved(self.pos, offset),
                        self.tree == TreeType::Group(*children),
                        group_fits(children@, i as int, at),
                    decreases n - i,
                {
                    proof {
                        assert(self.tree is Group && self.tree->Group_0 == *children);
                        assert(decreases_to!(*self => self.tree));
                        assert(decreases_to!(self.tree => self.tree->Group_0));
                        assert(decreases_to!(*children => children[i as int]));
                        assert(decreases_to!(*self => children[i as int]));
                    }
                    if !children[i].fits_at(at) {
                        proof {
                            lemma_group_unfit(children@, i as int + 1, n as int, at);
                        }
                        return false;
                    }
                    i += 1;
                }
                true
            },
        }
    }

    /// Render this tree into the given vector
    pub fn render_into(&self, offset: Vec3<i32>, parent_color: Paint, out: &mut Vec<Prism>)
        requires
            self.fits(offset),
        ensures
            final(out)@ == old(out)@ + self.prisms(offset, parent_color),
            all_wf(shapes_of(self.prisms(offset, parent_color))),
        decreases self,
    {
        let ghost start = out@;
        if self.hidden {
            assert(out@ =~= start + self.prisms(offset, parent_color));
            return ;
        }
        let color = match self.color {
            Some(c) => c,
            None => parent_color,
        };
        let offset = Vec3(self.pos.0 + offset.0, self.pos.1 + offset.1, self.pos.2 + offset.2);
        match &self.tree {
            TreeType::Group(children) => {
                // sub tree must be treated separately
                // otherwise cuts will also affect other already rendered prisms
                let mut child_out: Vec<Prism> = Vec::new();
                let n = children.len();
                let mut i: usize = 0;
                while i < n
                    invariant
                        n == children@.len(),
                        i <= n,
                        self.tree == TreeType::Group(*children),
                        group_fits(children@, n as int, offset),
                        child_out@ == group_prisms(children@, i as int, offset, color),
                        all_wf(shapes_of(child_out@)),
                    decreases n - i,
                {
                    let child = &children[i];
                    proof {
                        lemma_group_fits(children@, n as int, i as int, offset);
                        assert(self.tree is Group && self.tree->Group_0 == *children);
                        assert(decreases_to!(*self => self.tree));
                        assert(decreases_to!(self.tree => self.tree->Group_0));
                        assert(decreases_to!(*children => children[i as int]));
                        assert(decreases_to!(*self => children[i as int]));
                    }
                    if child.cut {
                        // for cuts, it needs to be put into a separate buffer,
                        // so we can run the subtration
                        let mut cut = Vec::new();
                        child.render_into(offset, color, &mut cut);
                        assert(cut@ =~= child.prisms(offset, color));
                        Prism::vec_subtract(&mut child_out, &cut);
                    } else {
                        let ghost before = child_out@;
                        child.render_into(offset, color, &mut child_out);
                        proof {
                            assert(shapes_of(child_out@) =~= shapes_of(before) + shapes_of(
                                child.prisms(offset, color),
                            ));
                            crate::shape::lemma_all_wf_concat(
                                shapes_of(before),
                                shapes_of(child.prisms(offset, color)),
                            );
                        }
                    }
                    i += 1;
                }
                let count = child_out.len();
                let mut k: usize = 0;
                while k < count
                    invariant
                        count == child_out@.len(),
                        k <= count,
                        out@ == start + child_out@.take(k as int),
                    decreases count - k,
                {
                    out.push(child_out[k]);
                    k += 1;
                    assert(out@ =~= start + child_out@.take(k as int));
                }
                assert(child_out@.take(count as int) =~= child_out@);
            },
            TreeType::Size(size) => {
                if !size.all_positive() {
                    assert(out@ =~= start + self.prisms(offset, parent_color));
                    return ;
                }
                out.push(Prism::new(color, offset, *size));
                proof {
                    let p = Prism { color, shape: Geom3 { size: *size, pos: offset } };
                    assert(out@ =~= start + seq![p]);
                    assert(shapes_of(seq![p])[0] == p.shape);
                }
            },
        }
    }
}

/// A group of which a child does not fit does not fit.
pub proof fn lemma_group_unfit(children: Seq<TreeNode>, i: int, n: int, offset: Vec3<i32>)
    requires
        0 < i <= n <= children.len(),
        !children[i - 1].fits(offset),
    ensures
        !group_fits(children, n, offset),
    decreases n - i,
{
    if i < n {
        lemma_group_unfit(children, i, n - 1, offset);
    }
}

/// Every child of a group that fits fits.
pub proof fn lemma_group_fits(children: Seq<TreeNode>, n: int, i: int, offset: Vec3<i32>)
    requires
        0 <= i < n <= children.len(),
        group_fits(children, n, offset),
    ensures
        children[i].fits(offset),
    decreases n,
{
    if i < n - 1 {
        lemma_group_fits(children, n - 1, i, offset);
    }
}

impl PrismTree {
    /// Whether `render_prisms` accepts the tree: every position and every
    /// prism lies within the coordinates
    pub open spec fn fits(&self) -> bool {
        match self.prism {
            Some(children) => group_fits(children@, children@.len() as int, self.pos),
            None => true,
        }
    }

    /// The prisms of the tree: those of its children in turn, none of them
    /// cut by a child of the root
    pub open spec fn prisms(&self) -> Seq<Prism> {
        match self.prism {
            Some(children) => root_prisms(children@, children@.len() as int, self.pos, self.color),
            None => Seq::empty(),
        }
    }

    /// Whether `render_prisms` accepts the tree
    pub fn is_valid(&self) -> (r: bool)
        ensures
            r == self.fits(),
    {
        match &self.prism {
            None => true,
            Some(children) => {
                let n = children.len();
                let mut i: usize = 0;
                while i < n
                    invariant
                        n == children@.len(),
                        i <= n,
                        self.prism == Some(*children),
                        group_fits(children@, i as int, self.pos),
                    decreases n - i,
                {
                    if !children[i].fits_at(self.pos) {
                        proof {
                            lemma_group_unfit(children@, i as int + 1, n as int, self.pos);
                        }
                        return false;
                    }
                    i += 1;
                }
                true
            },
        }
    }

    /// Render the Tree into a flat list of non-intersecting 3D shapes
    pub fn render_prisms(&self) -> (r: Vec<Prism>)
        requires
            self.fits(),
        ensures
            r@ == self.prisms(),
    {
        let mut out = Vec::new();
        if let Some(tree) = &self.prism {
            let n = tree.len();
            let mut i: usize = 0;
            while i < n
                invariant
                    n == tree@.len(),
                    i <= n,
                    group_fits(tree@, n as int, self.pos),
                    out@ == root_prisms(tree@, i as int, self.pos, self.color),
                decreases n - i,
            {
                proof {
                    lemma_group_fits(tree@, n as int, i as int, self.pos);
                }
                tree[i].render_into(self.pos, self.color, &mut out);
                i += 1;
            }
        }
        out
    }

    /// Get the shader color
    ///
    /// If the shader is not set, or if a component is not set,
    /// the default value is returned.
    /// The default colors are:
    /// - X: rgba(0, 0, 0, 0.15)
    /// - Y: rgba(0, 0, 0, 0.4)
    /// - Z: rgba(0, 0, 0, 0)
    pub fn get_shader(&self) -> (r: Vec3<Paint>)
        ensures
            r.0 == or_default(self.shader.0, default_shader_x()),
            r.1 == or_default(self.shader.1, default_shader_y()),
            r.2 == or_default(self.shader.2, default_shader_z()),
    {
        let d = default_shader();
        let x = match self.shader.0 {
            Some(c) => c,
            None => d.0,
        };
        let y = match self.shader.1 {
            Some(c) => c,
            None => d.1,
        };
        let z = match self.shader.2 {
            Some(c) => c,
            None => d.2,
        };
        Vec3(x, y, z)
    }
}

/// The prisms of the first `n` children of the root at `offset` with the
/// colour `color`, each child after the other
pub open spec fn root_prisms(children: Seq<TreeNode>, n: int, offset: Vec3<i32>, color: Paint) -> Seq<
    Prism,
>
    decreases n,
{
    if n <= 0 || n > children.len() {
        Seq::empty()
    } else {
        root_prisms(children, n - 1, offset, color) + children[n - 1].prisms(offset, color)
    }
}

} // verus!
