//! The archetype that controls the near clip plane of a 3D view.

use crate::components;
use crate::errors::DeserializationError;
use vstd::prelude::*;
use vstd::std_specs::convert::IntoSpec;

verus! {

/// **Archetype**: Controls the distance to the near clip plane in 3D scene units.
#[derive(Clone, Copy, Debug)]
pub struct NearClipPlane {
    /// Controls the distance to the near clip plane in 3D scene units.
    ///
    /// Content closer than this distance will not be visible.
    pub near_clip_plane: components::NearClipPlane,
}

impl NearClipPlane {
    /// The total number of components in the archetype: 0 required, 1 recommended, 1 optional
    pub const NUM_COMPONENTS: usize = 2usize;

    /// Create a new `NearClipPlane`.
    pub fn new<I: Into<components::NearClipPlane>>(near_clip_plane: I) -> (r: NearClipPlane)
        ensures
            I::obeys_into_spec() ==> r.near_clip_plane == near_clip_plane.into_spec(),
            call_ensures(I::into, (near_clip_plane,), r.near_clip_plane),
    {
        NearClipPlane { near_clip_plane: near_clip_plane.into() }
    }
}

/// Names one component of an archetype.
#[derive(Clone, Copy, Debug)]
pub struct ComponentDescriptor {
    /// The archetype that the component belongs to, if any.
    pub archetype_name: Option<&'static str>,
    /// The fully qualified name of the component.
    pub component_name: &'static str,
    /// The field of the archetype that holds the component, if any.
    pub archetype_field_name: Option<&'static str>,
}

/// The descriptor of the indicator component, which marks data as belonging
/// to this archetype.
pub open spec fn is_indicator_descriptor(d: ComponentDescriptor) -> bool {
    &&& d.archetype_name.is_some()
    &&& d.archetype_name.unwrap()@ == "rerun.blueprint.archetypes.NearClipPlane"@
    &&& d.component_name@ == "rerun.blueprint.components.NearClipPlaneIndicator"@
    &&& d.archetype_field_name.is_none()
}

/// The descriptor of the component that holds the distance.
pub open spec fn is_distance_descriptor(d: ComponentDescriptor) -> bool {
    &&& d.archetype_name.is_some()
    &&& d.archetype_name.unwrap()@ == "rerun.blueprint.archetypes.NearClipPlane"@
    &&& d.component_name@ == "rerun.blueprint.components.NearClipPlane"@
    &&& d.archetype_field_name.is_some()
    &&& d.archetype_field_name.unwrap()@ == "near_clip_plane"@
}

fn indicator_descriptor() -> (d: ComponentDescriptor)
    ensures
        is_indicator_descriptor(d),
{
    ComponentDescriptor {
        archetype_name: Some("rerun.blueprint.archetypes.NearClipPlane"),
        component_name: "rerun.blueprint.components.NearClipPlaneIndicator",
        archetype_field_name: None,
    }
}

fn distance_descriptor() -> (d: ComponentDescriptor)
    ensures
        is_distance_descriptor(d),
{
    ComponentDescriptor {
        archetype_name: Some("rerun.blueprint.archetypes.NearClipPlane"),
        component_name: "rerun.blueprint.components.NearClipPlane",
        archetype_field_name: Some("near_clip_plane"),
    }
}

impl NearClipPlane {
    /// The fully qualified name of the archetype.
    pub fn name() -> (r: &'static str)
        ensures
            r@ == "rerun.blueprint.archetypes.NearClipPlane"@,
    {
        "rerun.blueprint.archetypes.NearClipPlane"
    }

    /// The name of the archetype as shown to the user.
    pub fn display_name() -> (r: &'static str)
        ensures
            r@ == "Near clip plane"@,
    {
        "Near clip plane"
    }

    /// The components that must be present: none.
    pub fn required_components() -> (r: Vec<ComponentDescriptor>)
        ensures
            r@.len() == 0,
    {
        Vec::new()
    }

    /// The components that should be present: the indicator.
    pub fn recommended_components() -> (r: Vec<ComponentDescriptor>)
        ensures
            r@.len() == 1,
            is_indicator_descriptor(r@[0]),
    {
        let mut out: Vec<ComponentDescriptor> = Vec::new();
        out.push(indicator_descriptor());
        out
    }

    /// The components that may be present: the distance.
    pub fn optional_components() -> (r: Vec<ComponentDescriptor>)
        ensures
            r@.len() == 1,
            is_distance_descriptor(r@[0]),
    {
        let mut out: Vec<ComponentDescriptor> = Vec::new();
        out.push(distance_descriptor());
        out
    }

    /// All components of the archetype: the required ones, then the
    /// recommended ones, then the optional ones.
    pub fn all_components() -> (r: Vec<ComponentDescriptor>)
        ensures
            r@.len() == NearClipPlane::NUM_COMPONENTS,
            is_indicator_descriptor(r@[0]),
            is_distance_descriptor(r@[1]),
    {
        let mut out: Vec<ComponentDescriptor> = Vec::new();
        out.push(indicator_descriptor());
        out.push(distance_descriptor());
        out
    }

    /// Bytes that the value owns on the heap: those of its one component.
    pub fn heap_size_bytes(&self) -> (r: u64)
        ensures
            r == 0,
    {
        self.near_clip_plane.heap_size_bytes()
    }

    /// Whether the value is plain data without pointers, as its component is.
    pub fn is_pod() -> (r: bool)
        ensures
            r,
    {
        components::NearClipPlane::is_pod()
    }
}

/// The values of one component, as read from an Arrow array: one entry per
/// instance, `None` for a null slot.
#[derive(Debug)]
pub struct ComponentColumn {
    /// The fully qualified name of the component.
    pub name: String,
    /// The values, in order.
    pub values: Vec<Option<components::NearClipPlane>>,
}

/// Position of the last of the first `n` columns that has the given name.
pub open spec fn last_column_named(columns: Seq<ComponentColumn>, name: Seq<char>, n: int) -> Option<int>
    decreases n,
{
    if n <= 0 {
        None
    } else if columns[n - 1].name@ == name {
        Some(n - 1)
    } else {
        last_column_named(columns, name, n - 1)
    }
}

/// The archetype that the columns hold: the first value of the distance
/// column, and of the last such column where there are several. It is an
/// error if there is no such column, if it is empty, or if its first slot is
/// null.
pub open spec fn archetype_of(columns: Seq<ComponentColumn>) -> Result<NearClipPlane, DeserializationError> {
    match last_column_named(
        columns,
        "rerun.blueprint.components.NearClipPlane"@,
        columns.len() as int,
    ) {
        Some(at) => {
            if columns[at].values@.len() > 0 && columns[at].values@[0].is_some() {
                Ok(NearClipPlane { near_clip_plane: columns[at].values@[0].unwrap() })
            } else {
                Err(DeserializationError::MissingData)
            }
        },
        None => Err(DeserializationError::MissingData),
    }
}

impl NearClipPlane {
    /// Reads the archetype from the columns of its components.
    pub fn from_arrow_components(arrow_data: &Vec<ComponentColumn>) -> (r: Result<
        NearClipPlane,
        DeserializationError,
    >)
        ensures
            r == archetype_of(arrow_data@),
    {
        let wanted: String = components::NearClipPlane::name().to_owned();
        let mut found: Option<usize> = None;
        let mut i: usize = 0;
        while i < arrow_data.len()
            invariant
                i <= arrow_data@.len(),
                wanted@ == "rerun.blueprint.components.NearClipPlane"@,
                match found {
                    Some(at) => last_column_named(arrow_data@, wanted@, i as int) == Some(at as int) && at
                        < i,
                    None => last_column_named(arrow_data@, wanted@, i as int).is_none(),
                },
            decreases arrow_data@.len() - i,
        {
            if arrow_data[i].name == wanted {
                found = Some(i);
            }
            i += 1;
        }
        match found {
            Some(at) => {
                let values = &arrow_data[at].values;
                if values.len() > 0 {
                    match values[0] {
                        Some(near_clip_plane) => Ok(NearClipPlane { near_clip_plane }),
                        None => Err(DeserializationError::MissingData),
                    }
                } else {
                    Err(DeserializationError::MissingData)
                }
            },
            None => Err(DeserializationError::MissingData),
        }
    }
}

} // verus!
