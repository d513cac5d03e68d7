use vstd::prelude::*;

verus! {

/// An opaque runtime handle; its view is its text.
#[derive(Clone, Debug, PartialEq, Eq, Hash, PartialOrd, Ord)]
pub struct AdapterId(pub String);

impl View for AdapterId {
    type V = Seq<char>;

    open spec fn view(&self) -> Seq<char> {
        self.0@
    }
}

impl AdapterId {
    pub fn new(value: &str) -> (id: Self)
        ensures
            id@ == value@,
    {
        AdapterId(value.to_owned())
    }

    pub fn from_string(value: String) -> (id: Self)
        ensures
            id@ == value@,
    {
        AdapterId(value)
    }

    pub fn as_str(&self) -> (text: &str)
        ensures
            text@ == self@,
    {
        self.0.as_str()
    }

    /// A copy with the same text.
    pub fn duplicate(&self) -> (id: Self)
        ensures
            id == *self,
    {
        AdapterId(self.0.clone())
    }
}

/// An opaque runtime handle; its view is its text.
#[derive(Clone, Debug, PartialEq, Eq, Hash, PartialOrd, Ord)]
pub struct DeviceId(pub String);

impl View for DeviceId {
    type V = Seq<char>;

    open spec fn view(&self) -> Seq<char> {
        self.0@
    }
}

impl DeviceId {
    pub fn new(value: &str) -> (id: Self)
        ensures
            id@ == value@,
    {
        DeviceId(value.to_owned())
    }

    pub fn from_string(value: String) -> (id: Self)
        ensures
            id@ == value@,
    {
        DeviceId(value)
    }

    pub fn as_str(&self) -> (text: &str)
        ensures
            text@ == self@,
    {
        self.0.as_str()
    }

    /// A copy with the same text.
    pub fn duplicate(&self) -> (id: Self)
        ensures
            id == *self,
    {
        DeviceId(self.0.clone())
    }
}

/// An opaque runtime handle; its view is its text.
#[derive(Clone, Debug, PartialEq, Eq, Hash, PartialOrd, Ord)]
pub struct ConnectionId(pub String);

impl View for ConnectionId {
    type V = Seq<char>;

    open spec fn view(&self) -> Seq<char> {
        self.0@
    }
}

impl ConnectionId {
    pub fn new(value: &str) -> (id: Self)
        ensures
            id@ == value@,
    {
        ConnectionId(value.to_owned())
    }

    pub fn from_string(value: String) -> (id: Self)
        ensures
            id@ == value@,
    {
        ConnectionId(value)
    }

    pub fn as_str(&self) -> (text: &str)
        ensures
            text@ == self@,
    {
        self.0.as_str()
    }

    /// A copy with the same text.
    pub fn duplicate(&self) -> (id: Self)
        ensures
            id == *self,
    {
        ConnectionId(self.0.clone())
    }
}

/// An opaque runtime handle; its view is its text.
#[derive(Clone, Debug, PartialEq, Eq, Hash, PartialOrd, Ord)]
pub struct ServerId(pub String);

impl View for ServerId {
    type V = Seq<char>;

    open spec fn view(&self) -> Seq<char> {
        self.0@
    }
}

impl ServerId {
    pub fn new(value: &str) -> (id: Self)
        ensures
            id@ == value@,
    {
        ServerId(value.to_owned())
    }

    pub fn from_string(value: String) -> (id: Self)
        ensures
            id@ == value@,
    {
        ServerId(value)
    }

    pub fn as_str(&self) -> (text: &str)
        ensures
            text@ == self@,
    {
        self.0.as_str()
    }

    /// A copy with the same text.
    pub fn duplicate(&self) -> (id: Self)
        ensures
            id == *self,
    {
        ServerId(self.0.clone())
    }
}

/// An opaque runtime handle; its view is its text.
#[derive(Clone, Debug, PartialEq, Eq, Hash, PartialOrd, Ord)]
pub struct PeerId(pub String);

impl View for PeerId {
    type V = Seq<char>;

    open spec fn view(&self) -> Seq<char> {
        self.0@
    }
}

impl PeerId {
    pub fn new(value: &str) -> (id: Self)
        ensures
            id@ == value@,
    {
        PeerId(value.to_owned())
    }

    pub fn from_string(value: String) -> (id: Self)
        ensures
            id@ == value@,
    {
        PeerId(value)
    }

    pub fn as_str(&self) -> (text: &str)
        ensures
            text@ == self@,
    {
        self.0.as_str()
    }

    /// A copy with the same text.
    pub fn duplicate(&self) -> (id: Self)
        ensures
            id == *self,
    {
        PeerId(self.0.clone())
    }
}

/// An opaque runtime handle; its view is its text.
#[derive(Clone, Debug, PartialEq, Eq, Hash, PartialOrd, Ord)]
pub struct ScanId(pub String);

impl View for ScanId {
    type V = Seq<char>;

    open spec fn view(&self) -> Seq<char> {
        self.0@
    }
}

impl ScanId {
    pub fn new(value: &str) -> (id: Self)
        ensures
            id@ == value@,
    {
        ScanId(value.to_owned())
    }

    pub fn from_string(value: String) -> (id: Self)
        ensures
            id@ == value@,
    {
        ScanId(value)
    }

    pub fn as_str(&self) -> (text: &str)
        ensures
            text@ == self@,
    {
        self.0.as_str()
    }

    /// A copy with the same text.
    pub fn duplicate(&self) -> (id: Self)
        ensures
            id == *self,
    {
        ScanId(self.0.clone())
    }
}

/// An opaque runtime handle; its view is its text.
#[derive(Clone, Debug, PartialEq, Eq, Hash, PartialOrd, Ord)]
pub struct SubscriptionId(pub String);

impl View for SubscriptionId {
    type V = Seq<char>;

    open spec fn view(&self) -> Seq<char> {
        self.0@
    }
}

impl SubscriptionId {
    pub fn new(value: &str) -> (id: Self)
        ensures
            id@ == value@,
    {
        SubscriptionId(value.to_owned())
    }

    pub fn from_string(value: String) -> (id: Self)
        ensures
            id@ == value@,
    {
        SubscriptionId(value)
    }

    pub fn as_str(&self) -> (text: &str)
        ensures
            text@ == self@,
    {
        self.0.as_str()
    }

    /// A copy with the same text.
    pub fn duplicate(&self) -> (id: Self)
        ensures
            id == *self,
    {
        SubscriptionId(self.0.clone())
    }
}

/// An opaque runtime handle; its view is its text.
#[derive(Clone, Debug, PartialEq, Eq, Hash, PartialOrd, Ord)]
pub struct OperationId(pub String);

impl View for OperationId {
    type V = Seq<char>;

    open spec fn view(&self) -> Seq<char> {
        self.0@
    }
}

impl OperationId {
    pub fn new(value: &str) -> (id: Self)
        ensures
            id@ == value@,
    {
        OperationId(value.to_owned())
    }

    pub fn from_string(value: String) -> (id: Self)
        ensures
            id@ == value@,
    {
        OperationId(value)
    }

    pub fn as_str(&self) -> (text: &str)
        ensures
            text@ == self@,
    {
        self.0.as_str()
    }

    /// A copy with the same text.
    pub fn duplicate(&self) -> (id: Self)
        ensures
            id == *self,
    {
        OperationId(self.0.clone())
    }
}

/// An opaque runtime handle; its view is its text.
#[derive(Clone, Debug, PartialEq, Eq, Hash, PartialOrd, Ord)]
pub struct OwnerId(pub String);

impl View for OwnerId {
    type V = Seq<char>;

    open spec fn view(&self) -> Seq<char> {
        self.0@
    }
}

impl OwnerId {
    pub fn new(value: &str) -> (id: Self)
        ensures
            id@ == value@,
    {
        OwnerId(value.to_owned())
    }

    pub fn from_string(value: String) -> (id: Self)
        ensures
            id@ == value@,
    {
        OwnerId(value)
    }

    pub fn as_str(&self) -> (text: &str)
        ensures
            text@ == self@,
    {
        self.0.as_str()
    }

    /// A copy with the same text.
    pub fn duplicate(&self) -> (id: Self)
        ensures
            id == *self,
    {
        OwnerId(self.0.clone())
    }
}

/// An opaque runtime handle; its view is its text.
#[derive(Clone, Debug, PartialEq, Eq, Hash, PartialOrd, Ord)]
pub struct ServiceHandle(pub String);

impl View for ServiceHandle {
    type V = Seq<char>;

    open spec fn view(&self) -> Seq<char> {
        self.0@
    }
}

impl ServiceHandle {
    pub fn new(value: &str) -> (id: Self)
        ensures
            id@ == value@,
    {
        ServiceHandle(value.to_owned())
    }

    pub fn from_string(value: String) -> (id: Self)
        ensures
            id@ == value@,
    {
        ServiceHandle(value)
    }

    pub fn as_str(&self) -> (text: &str)
        ensures
            text@ == self@,
    {
        self.0.as_str()
    }

    /// A copy with the same text.
    pub fn duplicate(&self) -> (id: Self)
        ensures
            id == *self,
    {
        ServiceHandle(self.0.clone())
    }
}

/// An opaque runtime handle; its view is its text.
#[derive(Clone, Debug, PartialEq, Eq, Hash, PartialOrd, Ord)]
pub struct CharacteristicHandle(pub String);

impl View for CharacteristicHandle {
    type V = Seq<char>;

    open spec fn view(&self) -> Seq<char> {
        self.0@
    }
}

impl CharacteristicHandle {
    pub fn new(value: &str) -> (id: Self)
        ensures
            id@ == value@,
    {
        CharacteristicHandle(value.to_owned())
    }

    pub fn from_string(value: String) -> (id: Self)
        ensures
            id@ == value@,
    {
        CharacteristicHandle(value)
    }

    pub fn as_str(&self) -> (text: &str)
        ensures
            text@ == self@,
    {
        self.0.as_str()
    }

    /// A copy with the same text.
    pub fn duplicate(&self) -> (id: Self)
        ensures
            id == *self,
    {
        CharacteristicHandle(self.0.clone())
    }
}

/// An opaque runtime handle; its view is its text.
#[derive(Clone, Debug, PartialEq, Eq, Hash, PartialOrd, Ord)]
pub struct ResourceId(pub String);

impl View for ResourceId {
    type V = Seq<char>;

    open spec fn view(&self) -> Seq<char> {
        self.0@
    }
}

impl ResourceId {
    pub fn new(value: &str) -> (id: Self)
        ensures
            id@ == value@,
    {
        ResourceId(value.to_owned())
    }

    pub fn from_string(value: String) -> (id: Self)
        ensures
            id@ == value@,
    {
        ResourceId(value)
    }

    pub fn as_str(&self) -> (text: &str)
        ensures
            text@ == self@,
    {
        self.0.as_str()
    }

    /// A copy with the same text.
    pub fn duplicate(&self) -> (id: Self)
        ensures
            id == *self,
    {
        ResourceId(self.0.clone())
    }
}

} // verus!
