//! What a base image can do, by its declared type.

use vstd::prelude::*;

use crate::manifest::BaseType;

verus! {

/// Capabilities that a base image may provide.
///
/// An optional build step is emitted only when the base's capability set
/// contains what that step needs: `systemctl preset-all` needs `Systemd`,
/// `RUN bootc container lint` needs `Bootc`.
#[derive(Debug, Clone, Copy, PartialEq, Eq, Hash, Structural)]
pub enum Capability {
    Bootc,
    Systemd,
}

/// The set of capabilities detected for a given base image. Nothing is held
/// twice.
#[derive(Debug)]
pub struct CapabilitySet {
    items: Vec<Capability>,
}

impl View for CapabilitySet {
    type V = Set<Capability>;

    closed spec fn view(&self) -> Set<Capability> {
        self.items@.to_set()
    }
}

impl CapabilitySet {
    #[verifier::type_invariant]
    spec fn distinct(self) -> bool {
        self.items@.no_duplicates()
    }

    /// The set that holds nothing.
    pub fn new() -> (set: Self)
        ensures
            set@ == Set::<Capability>::empty(),
    {
        let set = CapabilitySet { items: Vec::new() };
        assert(set@ =~= Set::<Capability>::empty());
        set
    }

    pub fn contains(&self, capability: &Capability) -> (r: bool)
        ensures
            r == self@.contains(*capability),
    {
        for i in 0..self.items.len()
            invariant
                forall|j: int| 0 <= j < i ==> self.items@[j] != *capability,
        {
            if self.items[i] == *capability {
                return true;
            }
        }
        false
    }

    /// Adds `capability`; a set that holds it already stays as it is.
    pub fn insert(&mut self, capability: Capability)
        ensures
            final(self)@ == old(self)@.insert(capability),
    {
        if !self.contains(&capability) {
            proof {
                use_type_invariant(&*self);
            }
            let mut items: Vec<Capability> = Vec::new();
            std::mem::swap(&mut items, &mut self.items);
            let ghost before = items@;
            items.push(capability);
            proof {
                assert(before.push(capability).to_set() =~= before.to_set().insert(capability)) by {
                    broadcast use vstd::seq_lib::group_seq_properties;
                }
                assert(items@.no_duplicates());
            }
            self.items = items;
        }
        assert(self@ =~= old(self)@.insert(capability));
    }

    pub fn len(&self) -> (n: usize)
        ensures
            n == self@.len(),
            self@.finite(),
    {
        proof {
            use_type_invariant(self);
            self.items@.unique_seq_to_set();
        }
        self.items.len()
    }

    pub fn is_empty(&self) -> (r: bool)
        ensures
            r == (self@ == Set::<Capability>::empty()),
    {
        proof {
            if self.items@.len() > 0 {
                assert(self@.contains(self.items@[0]));
            } else {
                assert(self@ =~= Set::<Capability>::empty());
            }
        }
        self.items.len() == 0
    }
}

/// What a base of the given type provides: a bootc base everything, a plain
/// container nothing.
pub open spec fn capabilities(base_type: BaseType) -> Set<Capability> {
    match base_type {
        BaseType::Bootc => set![Capability::Bootc, Capability::Systemd],
        BaseType::Container => Set::empty(),
    }
}

/// The declared type, or bootc where none is declared.
pub open spec fn effective_base_type(manifest_override: Option<&BaseType>) -> BaseType {
    match manifest_override {
        Some(base_type) => *base_type,
        None => BaseType::Bootc,
    }
}

/// Build the capability set for a given base type classification.
pub fn capabilities_for_base_type(base_type: BaseType) -> (set: CapabilitySet)
    ensures
        set@ == capabilities(base_type),
{
    let mut set = CapabilitySet::new();
    match base_type {
        BaseType::Bootc => {
            set.insert(Capability::Bootc);
            set.insert(Capability::Systemd);
        },
        BaseType::Container => {},
    }
    set
}

/// Classify the base image and return its capability set.
///
/// Classification is declared-or-default: the manifest's `baseType` decides,
/// and absent it the base is treated as `Bootc`. The image itself is never
/// looked at, so generation needs no registry access for the base.
pub fn classify_base(_base_image: &str, manifest_override: Option<&BaseType>) -> (set:
    CapabilitySet)
    ensures
        set@ == capabilities(effective_base_type(manifest_override)),
{
    match manifest_override {
        Some(base_type) => capabilities_for_base_type(*base_type),
        None => capabilities_for_base_type(BaseType::Bootc),
    }
}

/// One line describing a `baseType` override that changes what gets emitted,
/// or `None` when there is nothing to report.
///
/// Only `container` qualifies: it drops the Systemd and Bootc capabilities, so
/// the preset and lint steps disappear from the output. A declared `bootc` is
/// the default, so announcing it would describe a change that did not happen.
pub fn base_type_override_note(manifest_override: Option<&BaseType>) -> (note: Option<
    &'static str,
>)
    ensures
        note is Some <==> manifest_override == Some(&BaseType::Container),
        note matches Some(n) ==> n@
            == "Base type: container (manifest override); systemd preset and lint steps omitted"@,
{
    match manifest_override {
        Some(BaseType::Container) => Some(
            "Base type: container (manifest override); systemd preset and lint steps omitted",
        ),
        Some(BaseType::Bootc) | None => None,
    }
}

/// An override is worth a note exactly when it changes what the base
/// provides.
pub proof fn law_note_iff_capabilities_change(manifest_override: Option<&BaseType>)
    ensures
        (manifest_override == Some(&BaseType::Container)) <==> capabilities(
            effective_base_type(manifest_override),
        ) != capabilities(effective_base_type(None)),
{
    assert(capabilities(BaseType::Bootc).contains(Capability::Bootc));
    assert(!capabilities(BaseType::Container).contains(Capability::Bootc));
}

/// A base is taken for a bootc base unless it is declared to be a container,
/// and has then everything that a build step may need; a container has
/// nothing of it.
pub proof fn law_only_a_container_lacks_capabilities(
    manifest_override: Option<&BaseType>,
    capability: Capability,
)
    ensures
        capabilities(effective_base_type(manifest_override)).contains(capability)
            <==> manifest_override != Some(&BaseType::Container),
{
}

} // verus!
