//! A scene to render: its settings and the bounding-volume hierarchy over
//! its primitives.

use crate::aabb::Aabb;
use crate::bvh::BvhTree;
use vstd::prelude::*;

verus! {

/// Settings of a single render: output size in pixels, samples per pixel,
/// and the bounce budget of the radiance integrator.
#[derive(Clone, Copy, PartialEq, Eq, Structural, Debug)]
pub struct SceneSettings {
    pub width: i32,
    pub height: i32,
    pub spp: i32,
    pub max_bounce: i32,
}

impl SceneSettings {
    /// The settings describe a renderable image: positive dimensions, at
    /// least one sample per pixel, a non-negative bounce budget, and an
    /// output buffer (three bytes per pixel) that fits in memory.
    pub open spec fn valid(self) -> bool {
        &&& 1 <= self.width
        &&& 1 <= self.height
        &&& 1 <= self.spp
        &&& 0 <= self.max_bounce
        &&& 3 * self.width * self.height <= usize::MAX
    }

    pub fn new(width: i32, height: i32, spp: i32, max_bounce: i32) -> (s: SceneSettings)
        ensures
            s == (SceneSettings { width, height, spp, max_bounce }),
    {
        SceneSettings { width, height, spp, max_bounce }
    }

    /// The number of pixels of the output image.
    pub fn pixel_count(&self) -> (n: usize)
        requires
            self.valid(),
        ensures
            n == self.width * self.height,
    {
        proof {
            assert(self.width * self.height <= 3 * self.width * self.height) by (nonlinear_arith)
                requires
                    1 <= self.width && 1 <= self.height,
            ;
        }
        (self.width as usize) * (self.height as usize)
    }

    /// The length in bytes of the output buffer: three bytes per pixel.
    pub fn buffer_len(&self) -> (n: usize)
        requires
            self.valid(),
        ensures
            n == 3 * self.width * self.height,
    {
        let n = self.pixel_count();
        proof {
            assert(3 * ((self.width as int) * (self.height as int)) == 3 * self.width
                * self.height) by (nonlinear_arith);
        }
        3 * n
    }
}

/// One scene: its render settings and the hierarchy built over its
/// primitives' bounding boxes.
pub struct Scene {
    pub settings: SceneSettings,
    pub bvh: BvhTree,
}

impl Scene {
    /// Build the scene's hierarchy over the primitives whose boxes are
    /// given; primitive `p`'s box is `boxes[p]`.
    pub fn new(boxes: &Vec<Aabb>, settings: SceneSettings) -> (s: Scene)
        requires
            1 <= boxes@.len(),
            2 * boxes@.len() - 1 <= usize::MAX,
        ensures
            s.settings == settings,
            s.bvh.wf(boxes@),
            s.bvh.nodes@.len() == 2 * boxes@.len() - 1,
    {
        Scene { settings, bvh: BvhTree::new(boxes) }
    }
}

} // verus!
