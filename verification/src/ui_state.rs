//! Small pieces of interface state: display toggles and the camera focus.
use vstd::prelude::*;

verus! {

/// Whether the mouse is over the interface during this frame.
#[derive(Debug)]
pub struct MouseInUi(bool);

impl Default for MouseInUi {
    fn default() -> (mouse: Self)
        ensures
            !mouse.spec_get(),
    {
        MouseInUi(false)
    }
}

impl MouseInUi {
    pub closed spec fn spec_get(&self) -> bool {
        self.0
    }

    pub fn get(&self) -> (inside: bool)
        ensures
            inside == self.spec_get(),
    {
        self.0
    }

    /// Record that the mouse is over the interface.
    pub fn set_is_inside(&mut self)
        ensures
            final(self).spec_get(),
    {
        self.0 = true;
    }

    /// Forget it at the start of a frame.
    pub fn reset(&mut self)
        ensures
            !final(self).spec_get(),
    {
        self.0 = false;
    }
}

/// Whether the trail of the selected bvh clip is drawn; on by default.
pub struct DrawBvhTrail(pub bool);

impl DrawBvhTrail {
    pub fn get(&self) -> (draw: bool)
        ensures
            draw == self.0,
    {
        self.0
    }
}

impl Default for DrawBvhTrail {
    fn default() -> (draw: Self)
        ensures
            draw.0,
    {
        Self(true)
    }
}

/// Whether trajectory arrows are drawn; on by default.
pub struct DrawTrajectory(pub bool);

impl DrawTrajectory {
    pub fn get(&self) -> (draw: bool)
        ensures
            draw == self.0,
    {
        self.0
    }
}

impl Default for DrawTrajectory {
    fn default() -> (draw: Self)
        ensures
            draw.0,
    {
        Self(true)
    }
}

/// Whether the armature of the nearest pose is drawn; on by default.
pub struct DrawNearestPoseArmature(pub bool);

impl Default for DrawNearestPoseArmature {
    fn default() -> (draw: Self)
        ensures
            draw.0,
    {
        Self(true)
    }
}

/// Whether the arrows of the nearest trajectory are drawn; on by default.
pub struct DrawNearestTrajectory(pub bool);

impl Default for DrawNearestTrajectory {
    fn default() -> (draw: Self)
        ensures
            draw.0,
    {
        Self(true)
    }
}

/// Whether the player follows the preset movement directions.
pub struct RunPresetDirection(pub bool);

/// The entity the camera follows, if any. `E` is the entity type.
#[derive(Debug, Clone, Copy)]
pub struct CameraFocus<E>(Option<E>);

impl<E> Default for CameraFocus<E> {
    fn default() -> (focus: Self)
        ensures
            focus.spec_get() == None::<E>,
    {
        CameraFocus(None)
    }
}

impl<E> CameraFocus<E> {
    pub closed spec fn spec_get(&self) -> Option<E> {
        self.0
    }
}

impl<E: Copy> CameraFocus<E> {
    pub fn get(&self) -> (focus: Option<E>)
        ensures
            focus == self.spec_get(),
    {
        self.0
    }

    pub fn set(&mut self, entity: E)
        ensures
            final(self).spec_get() == Some(entity),
    {
        self.0 = Some(entity);
    }

    pub fn clear(&mut self)
        ensures
            final(self).spec_get() == None::<E>,
    {
        self.0 = None;
    }

    /// The focus key was pressed: stop following when following, otherwise
    /// follow `main_scene` when there is one.
    pub fn toggle(&mut self, main_scene: Option<E>)
        ensures
            old(self).spec_get() is Some ==> final(self).spec_get() == None::<E>,
            old(self).spec_get() is None ==> final(self).spec_get() == main_scene,
    {
        if self.get().is_some() {
            self.clear();
        } else if let Some(entity) = main_scene {
            self.set(entity);
        }
    }
}

} // verus!
