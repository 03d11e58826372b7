//! An ordered sequence of frames with a playback cursor over it.
use vstd::prelude::*;
use crate::frame::Frame;

verus! {

/// Why a node of the current frame could not be read.
#[derive(Debug, Clone, Copy, PartialEq, Eq, Structural)]
pub enum SceneError {
    /// The scene holds no frame.
    EmptyScene,
    /// The node index lies outside the frame.
    Index(usize),
}

/// Frames in playback order, and the index of the frame on show.
#[derive(Debug)]
pub struct Scene<const N: usize, const M: usize> {
    frames: Vec<Frame<N, M>>,
    current_frame: usize,
}

/// Where the cursor stands after one step forward over `count` frames.
pub open spec fn advanced(cursor: int, count: int) -> int {
    if cursor + 1 < count {
        cursor + 1
    } else {
        cursor
    }
}

/// Where the cursor stands after one step back.
pub open spec fn retreated(cursor: int) -> int {
    if cursor > 0 {
        cursor - 1
    } else {
        cursor
    }
}

/// Where the cursor stands after `k` steps forward from `cursor`.
pub open spec fn advanced_times(cursor: int, count: int, k: nat) -> int
    decreases k,
{
    if k == 0 {
        cursor
    } else {
        advanced(advanced_times(cursor, count, (k - 1) as nat), count)
    }
}

/// Where the cursor stands after `k` steps back from `cursor`.
pub open spec fn retreated_times(cursor: int, k: nat) -> int
    decreases k,
{
    if k == 0 {
        cursor
    } else {
        retreated(retreated_times(cursor, (k - 1) as nat))
    }
}

impl<const N: usize, const M: usize> View for Scene<N, M> {
    type V = Seq<Seq<Seq<u8>>>;

    /// Frame by frame, the nodes' channel values.
    closed spec fn view(&self) -> Seq<Seq<Seq<u8>>> {
        self.frames@.map_values(|f: Frame<N, M>| f@)
    }
}

impl<const N: usize, const M: usize> Scene<N, M> {
    /// The cursor stands on a frame, or at zero when there is none.
    pub closed spec fn wf(&self) -> bool {
        if self.frames@.len() == 0 {
            self.current_frame == 0
        } else {
            self.current_frame < self.frames@.len()
        }
    }

    /// The index of the frame on show.
    pub closed spec fn cursor(&self) -> int {
        self.current_frame as int
    }

    /// A scene without frames.
    pub fn new() -> (r: Self)
        ensures
            r@ == Seq::<Seq<Seq<u8>>>::empty(),
            r.cursor() == 0,
            r.wf(),
    {
        let r = Scene { frames: Vec::new(), current_frame: 0 };
        assert(r@ =~= Seq::<Seq<Seq<u8>>>::empty());
        r
    }

    /// Appends a frame after the last one; the cursor stays where it is.
    pub fn add_frame(&mut self, frame: Frame<N, M>)
        requires
            old(self).wf(),
        ensures
            final(self).wf(),
            final(self)@ == old(self)@.push(frame@),
            final(self).cursor() == old(self).cursor(),
    {
        self.frames.push(frame);
        assert(self@ =~= old(self)@.push(frame@));
    }

    /// The number of frames.
    pub fn frame_count(&self) -> (r: usize)
        ensures
            r == self@.len(),
    {
        self.frames.len()
    }

    /// The index of the frame on show: below the frame count, or zero in an empty scene.
    pub fn current_index(&self) -> (r: usize)
        requires
            self.wf(),
        ensures
            r == self.cursor(),
            self@.len() == 0 ==> r == 0,
            self@.len() > 0 ==> r < self@.len(),
    {
        self.current_frame
    }

    /// Moves to the following frame, staying on the last one.
    pub fn next(&mut self)
        requires
            old(self).wf(),
        ensures
            final(self).wf(),
            final(self)@ == old(self)@,
            final(self).cursor() == advanced(old(self).cursor(), old(self)@.len() as int),
    {
        if self.frames.len() > 0 && self.current_frame < self.frames.len() - 1 {
            self.current_frame = self.current_frame + 1;
        }
    }

    /// Moves to the preceding frame, staying on the first one.
    pub fn prev(&mut self)
        requires
            old(self).wf(),
        ensures
            final(self).wf(),
            final(self)@ == old(self)@,
            final(self).cursor() == retreated(old(self).cursor()),
    {
        if self.current_frame > 0 {
            self.current_frame = self.current_frame - 1;
        }
    }

    /// The channels of node `idx` in the frame on show.
    pub fn get_node(&self, idx: usize) -> (r: Result<[u8; M], SceneError>)
        requires
            self.wf(),
        ensures
            self@.len() == 0 ==> r == Err::<[u8; M], SceneError>(SceneError::EmptyScene),
            self@.len() > 0 && idx >= N ==> r == Err::<[u8; M], SceneError>(SceneError::Index(idx)),
            self@.len() > 0 && idx < N ==> r is Ok && r->Ok_0@ == self@[self.cursor()][idx as int],
    {
        if self.frames.len() == 0 {
            return Err(SceneError::EmptyScene);
        }
        match self.frames[self.current_frame].get_node(idx) {
            Ok(node) => Ok(node),
            Err(_) => Err(SceneError::Index(idx)),
        }
    }
}

/// Stepping forward from the first of `count` frames moves one frame per step until
/// the last frame; after `count` steps, or any more, the cursor stands on the last frame.
pub proof fn lemma_advance_to_last(count: int, k: nat)
    requires
        count > 0,
    ensures
        advanced_times(0, count, k) == if k < count { k as int } else { count - 1 },
    decreases k,
{
    if k > 0 {
        lemma_advance_to_last(count, (k - 1) as nat);
    }
}

/// Stepping back any number of times never takes the cursor below the first frame:
/// after `k` steps from `cursor` it stands at `cursor - k`, or at zero.
pub proof fn lemma_retreat_stays_at_or_above_zero(cursor: int, k: nat)
    requires
        cursor >= 0,
    ensures
        retreated_times(cursor, k) >= 0,
        retreated_times(cursor, k) == if cursor >= k { cursor - k } else { 0 },
    decreases k,
{
    if k > 0 {
        lemma_retreat_stays_at_or_above_zero(cursor, (k - 1) as nat);
    }
}

/// In a scene without frames the cursor never leaves zero, whatever steps are taken.
pub proof fn lemma_empty_scene_cursor(forward: nat, back: nat)
    ensures
        advanced_times(0, 0, forward) == 0,
        retreated_times(advanced_times(0, 0, forward), back) == 0,
    decreases forward,
{
    if forward > 0 {
        lemma_empty_scene_cursor((forward - 1) as nat, back);
    }
    lemma_retreat_stays_at_or_above_zero(0, back);
}

} // verus!
