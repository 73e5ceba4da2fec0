//! The built-in default logger table: the well-known component kinds and
//! the logger token each one is logged through when the embedding
//! application supplies no override.
//!
//! The tokens are opaque to the engine; the embedding application maps
//! each token to its concrete conversion callback.

use vstd::prelude::*;
use vstd::string::*;

use crate::rerun_logger::RerunComponentLoggers;

verus! {

pub const LOGGER_TRANSFORM: u64 = 1;

pub const LOGGER_GLOBAL_TRANSFORM: u64 = 2;

pub const LOGGER_MESH2D: u64 = 3;

pub const LOGGER_MESH3D: u64 = 4;

pub const LOGGER_PROJECTION: u64 = 5;

pub const LOGGER_PROJECTION_ORTHOGRAPHIC: u64 = 6;

pub const LOGGER_PROJECTION_PERSPECTIVE: u64 = 7;

pub const LOGGER_SPRITE: u64 = 8;

pub const LOGGER_AABB: u64 = 9;

pub const LOGGER_PARENT: u64 = 10;

pub const LOGGER_CHILDREN: u64 = 11;

/// The association of well-known kind names with default logger tokens;
/// the engine's own path-cache component kind is suppressed by default.
pub open spec fn default_logger_table() -> Map<Seq<char>, Option<u64>> {
    Map::<Seq<char>, Option<u64>>::empty().insert(
        "bevy_transform::components::transform::Transform"@,
        Option::Some(LOGGER_TRANSFORM),
    ).insert(
        "bevy_transform::components::global_transform::GlobalTransform"@,
        Option::Some(LOGGER_GLOBAL_TRANSFORM),
    ).insert("bevy_render::mesh::components::Mesh2d"@, Option::Some(LOGGER_MESH2D)).insert(
        "bevy_render::mesh::components::Mesh3d"@,
        Option::Some(LOGGER_MESH3D),
    ).insert("bevy_render::camera::projection::Projection"@, Option::Some(LOGGER_PROJECTION)).insert(
        "bevy_render::camera::projection::OrthographicProjection"@,
        Option::Some(LOGGER_PROJECTION_ORTHOGRAPHIC),
    ).insert(
        "bevy_render::camera::projection::PerspectiveProjection"@,
        Option::Some(LOGGER_PROJECTION_PERSPECTIVE),
    ).insert("bevy_sprite::sprite::Sprite"@, Option::Some(LOGGER_SPRITE)).insert(
        "bevy_render::primitives::Aabb"@,
        Option::Some(LOGGER_AABB),
    ).insert("bevy_hierarchy::components::parent::Parent"@, Option::Some(LOGGER_PARENT)).insert(
        "bevy_hierarchy::components::children::Children"@,
        Option::Some(LOGGER_CHILDREN),
    ).insert("revy::entity_path::RerunEntityPath"@, Option::None)
}

/// The default logger table, used when no user override matches a kind.
pub struct DefaultRerunComponentLoggers {
    pub table: RerunComponentLoggers,
}

impl View for DefaultRerunComponentLoggers {
    type V = Map<Seq<char>, Option<u64>>;

    open spec fn view(&self) -> Map<Seq<char>, Option<u64>> {
        self.table@
    }
}

impl Default for DefaultRerunComponentLoggers {
    /// Builds the built-in table.
    fn default() -> (r: DefaultRerunComponentLoggers)
        ensures
            r.table.wf(),
            r@ == default_logger_table(),
    {
        let mut t = RerunComponentLoggers::empty();
        t.set_logger(
            String::from_str("bevy_transform::components::transform::Transform"),
            Some(LOGGER_TRANSFORM),
        );
        t.set_logger(
            String::from_str("bevy_transform::components::global_transform::GlobalTransform"),
            Some(LOGGER_GLOBAL_TRANSFORM),
        );
        t.set_logger(
            String::from_str("bevy_render::mesh::components::Mesh2d"),
            Some(LOGGER_MESH2D),
        );
        t.set_logger(
            String::from_str("bevy_render::mesh::components::Mesh3d"),
            Some(LOGGER_MESH3D),
        );
        t.set_logger(
            String::from_str("bevy_render::camera::projection::Projection"),
            Some(LOGGER_PROJECTION),
        );
        t.set_logger(
            String::from_str("bevy_render::camera::projection::OrthographicProjection"),
            Some(LOGGER_PROJECTION_ORTHOGRAPHIC),
        );
        t.set_logger(
            String::from_str("bevy_render::camera::projection::PerspectiveProjection"),
            Some(LOGGER_PROJECTION_PERSPECTIVE),
        );
        t.set_logger(String::from_str("bevy_sprite::sprite::Sprite"), Some(LOGGER_SPRITE));
        t.set_logger(String::from_str("bevy_render::primitives::Aabb"), Some(LOGGER_AABB));
        t.set_logger(
            String::from_str("bevy_hierarchy::components::parent::Parent"),
            Some(LOGGER_PARENT),
        );
        t.set_logger(
            String::from_str("bevy_hierarchy::components::children::Children"),
            Some(LOGGER_CHILDREN),
        );
        t.set_logger(String::from_str("revy::entity_path::RerunEntityPath"), None);
        let r = DefaultRerunComponentLoggers { table: t };
        proof {
            assert(r@ =~= default_logger_table());
        }
        r
    }
}

} // verus!
