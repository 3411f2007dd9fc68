use vstd::prelude::*;

verus! {

/// Colour of an entity, as an index into the palette.
#[derive(Clone, Copy, Debug, PartialEq)]
pub struct Tint {
    pub color: usize,
}

/// Part of the day a settler's schedule is in.
#[derive(Clone, Copy, Debug, PartialEq)]
pub enum ScheduleTime {
    Work,
    Leisure,
    Sleep,
}

/// Standing order given to a settler.
#[derive(Clone, Copy, Debug, PartialEq)]
pub enum WorkOrder {
    Idle,
    MoveRandomly,
    Lumberjack,
    Construction,
}

/// An entity whose turn it is to act, with what it is doing.
#[derive(Clone, Debug, PartialEq)]
pub struct MyTurn {
    pub active: bool,
    pub shift: ScheduleTime,
    pub job: JobType,
    pub order: WorkOrder,
}

/// The job an entity is carrying out.
#[derive(Clone, Debug, PartialEq)]
pub enum JobType {
    Idle,
    FellTree {
        tree_id: usize,
        tree_pos: usize,
        tool_id: Option<usize>,
        step: LumberjackSteps,
    },
    ConstructBuilding {
        building_id: usize,
        building_pos: usize,
        step: BuildingSteps,
        components: Vec<(usize, usize, bool)>,
    },
}

/// Stages of felling a tree.
#[derive(Clone, Debug, PartialEq)]
pub enum LumberjackSteps {
    FindAxe,
    TravelToAxe { path: Vec<usize> },
    CollectAxe,
    FindTree,
    TravelToTree { path: Vec<usize> },
    ChopTree,
}

/// Stages of putting up a building.
#[derive(Clone, Debug, PartialEq)]
pub enum BuildingSteps {
    FindComponent,
    TravelToComponent { path: Vec<usize>, component_id: usize },
    CollectComponent { component_id: usize },
    FindBuilding { component_id: usize },
    TravelToTBuilding { path: Vec<usize>, component_id: usize },
    Construct,
}

/// Component types that the world saves and loads.
#[derive(Clone, Copy, Debug, PartialEq, Eq, Structural)]
pub enum ComponentKind {
    Position,
    CameraOptions,
    Calendar,
    Dimensions,
    VoxelModel,
    WorldPosition,
    Name,
    Description,
    Tint,
    Species,
    CompositeRender,
    Tagline,
    Attributes,
    ItemWorn,
    ItemStored,
    ItemCarried,
    Identity,
    Light,
    FieldOfView,
    Initiative,
}

/// Tag types that the world saves and loads.
#[derive(Clone, Copy, Debug, PartialEq, Eq, Structural)]
pub enum TagKind {
    Cordex,
    Building,
    Item,
    Sentient,
    MyTurn,
}

/// The component types registered for saving, in registration order.
pub open spec fn registered_components() -> Seq<ComponentKind> {
    seq![
        ComponentKind::Position,
        ComponentKind::CameraOptions,
        ComponentKind::Calendar,
        ComponentKind::Dimensions,
        ComponentKind::VoxelModel,
        ComponentKind::WorldPosition,
        ComponentKind::Name,
        ComponentKind::Description,
        ComponentKind::Tint,
        ComponentKind::Species,
        ComponentKind::CompositeRender,
        ComponentKind::Tagline,
        ComponentKind::Attributes,
        ComponentKind::ItemWorn,
        ComponentKind::ItemStored,
        ComponentKind::ItemCarried,
        ComponentKind::Identity,
        ComponentKind::Light,
        ComponentKind::FieldOfView,
        ComponentKind::Initiative,
    ]
}

/// The tag types registered for saving, in registration order.
pub open spec fn registered_tags() -> Seq<TagKind> {
    seq![TagKind::Cordex, TagKind::Building, TagKind::Item, TagKind::Sentient, TagKind::MyTurn]
}

/// The component and tag types that a saved world holds, each listed once.
pub fn component_registration() -> (regs: (Vec<ComponentKind>, Vec<TagKind>))
    ensures
        regs.0@ == registered_components(),
        regs.1@ == registered_tags(),
        regs.0@.no_duplicates(),
        regs.1@.no_duplicates(),
{
    let comp_registrations = vec![
        ComponentKind::Position,
        ComponentKind::CameraOptions,
        ComponentKind::Calendar,
        ComponentKind::Dimensions,
        ComponentKind::VoxelModel,
        ComponentKind::WorldPosition,
        ComponentKind::Name,
        ComponentKind::Description,
        ComponentKind::Tint,
        ComponentKind::Species,
        ComponentKind::CompositeRender,
        ComponentKind::Tagline,
        ComponentKind::Attributes,
        ComponentKind::ItemWorn,
        ComponentKind::ItemStored,
        ComponentKind::ItemCarried,
        ComponentKind::Identity,
        ComponentKind::Light,
        ComponentKind::FieldOfView,
        ComponentKind::Initiative,
    ];
    let tag_registrations = vec![
        TagKind::Cordex,
        TagKind::Building,
        TagKind::Item,
        TagKind::Sentient,
        TagKind::MyTurn,
    ];
    assert(comp_registrations@ =~= registered_components());
    assert(tag_registrations@ =~= registered_tags());
    (comp_registrations, tag_registrations)
}

} // verus!
