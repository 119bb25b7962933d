use vstd::prelude::*;

verus! {

/// An opaque handle into the registry. Handles are handed out in order and
/// never reused.
#[derive(Debug, PartialEq, Eq, Clone, Copy, Structural)]
pub struct Entity(usize);

impl Entity {
    /// The position of this handle in the registry.
    pub closed spec fn index(self) -> nat {
        self.0 as nat
    }
}

/// The entity registry: for each entity, the ordered list of the components
/// attached to it.
#[derive(Debug)]
pub struct Ecs<C> {
    entity_components: Vec<Vec<C>>,
}

impl<C> View for Ecs<C> {
    type V = Seq<Seq<C>>;

    closed spec fn view(&self) -> Seq<Seq<C>> {
        Seq::new(self.entity_components@.len(), |i: int| self.entity_components@[i]@)
    }
}

impl<C> Ecs<C> {
    /// Whether `entity` was handed out by this registry.
    pub open spec fn has(&self, entity: Entity) -> bool {
        entity.index() < self@.len()
    }

    pub fn new() -> (r: Self)
        ensures
            r@ == Seq::<Seq<C>>::empty(),
    {
        let r = Ecs { entity_components: Vec::new() };
        assert(r@ =~= Seq::<Seq<C>>::empty());
        r
    }

    /// Allocates a fresh entity with no components.
    pub fn entity(&mut self) -> (r: Entity)
        requires
            old(self)@.len() < usize::MAX,
        ensures
            r.index() == old(self)@.len(),
            final(self)@ == old(self)@.push(Seq::<C>::empty()),
    {
        let id = self.entity_components.len();
        self.entity_components.push(Vec::new());
        assert(self@ =~= old(self)@.push(Seq::<C>::empty()));
        Entity(id)
    }

    /// Appends `component` to the components of `entity`.
    pub fn add_component(&mut self, entity: Entity, component: C)
        requires
            old(self).has(entity),
        ensures
            final(self)@ == old(self)@.update(
                entity.index() as int,
                old(self)@[entity.index() as int].push(component),
            ),
    {
        let list = &mut self.entity_components[entity.0];
        list.push(component);
        assert(self@ =~= old(self)@.update(
            entity.index() as int,
            old(self)@[entity.index() as int].push(component),
        ));
    }

    /// The components of `entity`, in the order they were attached.
    pub fn components(&self, entity: Entity) -> (r: &[C])
        requires
            self.has(entity),
        ensures
            r@ == self@[entity.index() as int],
    {
        self.entity_components[entity.0].as_slice()
    }
}

} // verus!
