//! The frame plans of the post-processing passes: which targets are resized, what is
//! rendered where and which effect runs from which input to which output, in order.
use vstd::prelude::*;

verus! {

/// A render target a pass uses.
#[derive(Clone, Copy, PartialEq, Eq, Debug)]
pub enum Surface {
    /// The pass's own scene target.
    Scene,
    /// The target between two effects.
    Intermediate,
    /// The target holding the encoded scene.
    Encoded,
    /// The frame's output.
    Output,
    /// One of the comparison targets, by index.
    Target(usize),
}

/// An effect a pass runs.
#[derive(Clone, Copy, PartialEq, Eq, Debug)]
pub enum Effect {
    /// The horizontal blur.
    Horizontal,
    /// The vertical blur.
    Vertical,
    /// The encoding of the scene for edge detection.
    Encode,
    /// The edge detection.
    Edge,
    /// The anti-aliasing pass.
    Smaa,
    /// A plain copy.
    Copy,
    /// The side-by-side comparison.
    Compare,
}

/// One step of a frame.
#[derive(Clone, Copy, PartialEq, Eq, Debug)]
pub enum Step {
    /// Resize a target to `width × height`.
    Resize { target: Surface, width: u32, height: u32 },
    /// Recreate the depth views the blurs sample, after a resize of their scene.
    RefreshDepth,
    /// Render the scene with the camera into a target.
    Render { target: Surface },
    /// Set an effect's first parameter to the texel size `[1 / x, 1 / y]`, a missing axis
    /// giving 0.
    Texel { effect: Effect, x: Option<u32>, y: Option<u32> },
    /// Give every compared object the material of this index.
    Material { index: usize },
    /// Set the perspective camera's aspect to `width / height`.
    Aspect { width: u32, height: u32 },
    /// Run an effect from `input` (and `history`) to `output`.
    Apply { effect: Effect, input: Surface, history: Option<Surface>, output: Surface },
}

/// The interpolation comparison: its objects drawn with one of five materials into two
/// half-width targets, one single-sampled and one multisampled, shown side by side.
pub struct Comparison {
    pub targets: usize,
}

/// The steps of each comparison target, from the `i`-th on.
pub open spec fn comparison_targets(n: int, i: int, width: u32, height: u32) -> Seq<Step>
    decreases n - i,
{
    if i >= n {
        seq![]
    } else {
        seq![
            Step::Resize { target: Surface::Target(i as usize), width, height },
            Step::Render { target: Surface::Target(i as usize) },
        ] + comparison_targets(n, i + 1, width, height)
    }
}

/// The comparison's frame: the selected material (at most the fifth), the half width (at
/// least 1), every target resized and rendered, then the comparison of the first two.
pub open spec fn comparison_frame(targets: int, width: u32, height: u32, index: usize) -> Seq<Step> {
    let w = if width / 2 >= 1 {
        (width / 2) as u32
    } else {
        1u32
    };
    let m = if index <= 4 {
        index
    } else {
        4usize
    };
    seq![Step::Material { index: m }, Step::Aspect { width: w, height }] + comparison_targets(
        targets,
        0,
        w,
        height,
    ) + seq![
        Step::Apply {
            effect: Effect::Compare,
            input: Surface::Target(0),
            history: Some(Surface::Target(1)),
            output: Surface::Output,
        },
    ]
}

impl Comparison {
    /// Plans a frame of the comparison for an output of `width × height` and the selected
    /// interpolation `index`.
    pub fn render(&self, width: u32, height: u32, index: usize) -> (steps: Vec<Step>)
        ensures
            steps@ == comparison_frame(self.targets as int, width, height, index),
    {
        let index = if index < 4 {
            index
        } else {
            4
        };
        let half = if width / 2 > 1 {
            width / 2
        } else {
            1
        };
        let mut steps: Vec<Step> = Vec::new();
        steps.push(Step::Material { index });
        steps.push(Step::Aspect { width: half, height });
        let ghost head = steps@;
        let mut i: usize = 0;
        while i < self.targets
            invariant
                i <= self.targets,
                steps@ + comparison_targets(self.targets as int, i as int, half, height)
                    == head + comparison_targets(self.targets as int, 0, half, height),
            decreases self.targets - i,
        {
            let ghost before = steps@;
            steps.push(Step::Resize { target: Surface::Target(i), width: half, height });
            steps.push(Step::Render { target: Surface::Target(i) });
            assert(steps@ =~= before + seq![
                Step::Resize { target: Surface::Target(i), width: half, height },
                Step::Render { target: Surface::Target(i) },
            ]);
            assert(comparison_targets(self.targets as int, i as int, half, height) == seq![
                Step::Resize { target: Surface::Target(i), width: half, height },
                Step::Render { target: Surface::Target(i) },
            ] + comparison_targets(self.targets as int, i + 1, half, height));
            i = i + 1;
        }
        assert(comparison_targets(self.targets as int, i as int, half, height) =~= seq![]);
        steps.push(
            Step::Apply {
                effect: Effect::Compare,
                input: Surface::Target(0),
                history: Some(Surface::Target(1)),
                output: Surface::Output,
            },
        );
        steps
    }
}

/// The skinning scene's depth-aware blur: the scene into its own target, blurred
/// horizontally into an intermediate target, then vertically into the output.
pub struct Blur {
    pub width: u32,
    pub height: u32,
}

/// The blur's frame for an output of `width × height` when its targets have `old_width ×
/// old_height`.
pub open spec fn blur_frame(old_width: u32, old_height: u32, width: u32, height: u32) -> Seq<Step> {
    let resize = if old_width != width || old_height != height {
        seq![
            Step::Resize { target: Surface::Scene, width, height },
            Step::Resize { target: Surface::Intermediate, width, height },
            Step::RefreshDepth,
        ]
    } else {
        seq![]
    };
    resize + seq![
        Step::Render { target: Surface::Scene },
        Step::Texel { effect: Effect::Horizontal, x: Some(width), y: None },
        Step::Texel { effect: Effect::Vertical, x: None, y: Some(height) },
        Step::Apply {
            effect: Effect::Horizontal,
            input: Surface::Scene,
            history: None,
            output: Surface::Intermediate,
        },
        Step::Apply {
            effect: Effect::Vertical,
            input: Surface::Intermediate,
            history: None,
            output: Surface::Output,
        },
    ]
}

impl Blur {
    /// Plans a frame of the blur for an output of `width × height`; the targets are resized
    /// only when the size changed, and keep the new size.
    pub fn render(&mut self, width: u32, height: u32) -> (steps: Vec<Step>)
        ensures
            steps@ == blur_frame(old(self).width, old(self).height, width, height),
            final(self).width == width,
            final(self).height == height,
    {
        let mut steps: Vec<Step> = Vec::new();
        if self.width != width || self.height != height {
            steps.push(Step::Resize { target: Surface::Scene, width, height });
            steps.push(Step::Resize { target: Surface::Intermediate, width, height });
            steps.push(Step::RefreshDepth);
            self.width = width;
            self.height = height;
        }
        steps.push(Step::Render { target: Surface::Scene });
        steps.push(Step::Texel { effect: Effect::Horizontal, x: Some(width), y: None });
        steps.push(Step::Texel { effect: Effect::Vertical, x: None, y: Some(height) });
        steps.push(
            Step::Apply {
                effect: Effect::Horizontal,
                input: Surface::Scene,
                history: None,
                output: Surface::Intermediate,
            },
        );
        steps.push(
            Step::Apply {
                effect: Effect::Vertical,
                input: Surface::Intermediate,
                history: None,
                output: Surface::Output,
            },
        );
        assert(steps@ =~= blur_frame(old(self).width, old(self).height, width, height));
        steps
    }
}

/// The anti-aliasing example: the scene into its target, then through SMAA or a plain
/// copy to the output.
pub struct Smaa;

/// The SMAA example's frame.
pub open spec fn smaa_frame(width: u32, height: u32, enabled: bool) -> Seq<Step> {
    seq![
        Step::Resize { target: Surface::Scene, width, height },
        Step::Render { target: Surface::Scene },
        Step::Apply {
            effect: if enabled {
                Effect::Smaa
            } else {
                Effect::Copy
            },
            input: Surface::Scene,
            history: None,
            output: Surface::Output,
        },
    ]
}

impl Smaa {
    /// Plans a frame for an output of `width × height`, with or without anti-aliasing.
    pub fn render(&self, width: u32, height: u32, enabled: bool) -> (steps: Vec<Step>)
        ensures
            steps@ == smaa_frame(width, height, enabled),
    {
        let mut steps: Vec<Step> = Vec::new();
        steps.push(Step::Resize { target: Surface::Scene, width, height });
        steps.push(Step::Render { target: Surface::Scene });
        let effect = if enabled {
            Effect::Smaa
        } else {
            Effect::Copy
        };
        steps.push(
            Step::Apply { effect, input: Surface::Scene, history: None, output: Surface::Output },
        );
        assert(steps@ =~= smaa_frame(width, height, enabled));
        steps
    }
}

/// The edge-detection example: the scene encoded, then its edges, or the encoding alone.
pub struct Sobel;

/// The Sobel example's frame.
pub open spec fn sobel_frame(width: u32, height: u32, enabled: bool) -> Seq<Step> {
    let head = seq![
        Step::Resize { target: Surface::Scene, width, height },
        Step::Resize { target: Surface::Encoded, width, height },
        Step::Render { target: Surface::Scene },
    ];
    if enabled {
        head + seq![
            Step::Apply {
                effect: Effect::Encode,
                input: Surface::Scene,
                history: None,
                output: Surface::Encoded,
            },
            Step::Texel { effect: Effect::Edge, x: Some(width), y: Some(height) },
            Step::Apply {
                effect: Effect::Edge,
                input: Surface::Encoded,
                history: None,
                output: Surface::Output,
            },
        ]
    } else {
        head + seq![
            Step::Apply {
                effect: Effect::Encode,
                input: Surface::Scene,
                history: None,
                output: Surface::Output,
            },
        ]
    }
}

impl Sobel {
    /// Plans a frame for an output of `width × height`, with or without edge detection.
    pub fn render(&self, width: u32, height: u32, enabled: bool) -> (steps: Vec<Step>)
        ensures
            steps@ == sobel_frame(width, height, enabled),
    {
        let mut steps: Vec<Step> = Vec::new();
        steps.push(Step::Resize { target: Surface::Scene, width, height });
        steps.push(Step::Resize { target: Surface::Encoded, width, height });
        steps.push(Step::Render { target: Surface::Scene });
        if enabled {
            steps.push(
                Step::Apply {
                    effect: Effect::Encode,
                    input: Surface::Scene,
                    history: None,
                    output: Surface::Encoded,
                },
            );
            steps.push(Step::Texel { effect: Effect::Edge, x: Some(width), y: Some(height) });
            steps.push(
                Step::Apply {
                    effect: Effect::Edge,
                    input: Surface::Encoded,
                    history: None,
                    output: Surface::Output,
                },
            );
        } else {
            steps.push(
                Step::Apply {
                    effect: Effect::Encode,
                    input: Surface::Scene,
                    history: None,
                    output: Surface::Output,
                },
            );
        }
        assert(steps@ =~= sobel_frame(width, height, enabled));
        steps
    }
}

} // verus!
