//! Quality of Service (`QoS`) levels for MQTT, with conversions to and from
//! the `rumqttc` client's own `QoS` type.
use vstd::prelude::*;

use rumqttc::mqttbytes::Error as ClientError;
use rumqttc::mqttbytes::QoS as ClientQoS;

verus! {

/// MQTT Quality of Service levels, ordered by their delivery guarantee.
#[derive(Debug, Clone, Copy, PartialEq, Eq, Structural, PartialOrd, Ord, Hash)]
pub enum QoS {
    /// `QoS` 0: at most once delivery (fire and forget).
    AtMostOnce,
    /// `QoS` 1: at least once delivery (acknowledged delivery).
    AtLeastOnce,
    /// `QoS` 2: exactly once delivery (assured delivery).
    ExactlyOnce,
}

/// The numeric level of a `QoS` (0, 1 or 2).
pub open spec fn qos_level(q: QoS) -> nat {
    match q {
        QoS::AtMostOnce => 0,
        QoS::AtLeastOnce => 1,
        QoS::ExactlyOnce => 2,
    }
}

/// The `QoS` of a numeric level (levels above 2 have none).
pub open spec fn qos_of_level(n: nat) -> Option<QoS> {
    if n == 0 {
        Some(QoS::AtMostOnce)
    } else if n == 1 {
        Some(QoS::AtLeastOnce)
    } else if n == 2 {
        Some(QoS::ExactlyOnce)
    } else {
        None
    }
}

/// The text of [`QoS::to_string`].
pub open spec fn qos_text(q: QoS) -> Seq<char> {
    match q {
        QoS::AtMostOnce => "QoS0"@,
        QoS::AtLeastOnce => "QoS1"@,
        QoS::ExactlyOnce => "QoS2"@,
    }
}

#[verifier::external_type_specification]
#[verifier::external_body]
pub struct ExRumqttcQoS(ClientQoS);

#[verifier::external_type_specification]
#[verifier::external_body]
pub struct ExRumqttcError(ClientError);

/// The level that a `rumqttc` `QoS` value stands for (its `repr(u8)`
/// discriminant: 0, 1 or 2).
pub uninterp spec fn rumqttc_qos_level(q: ClientQoS) -> u8;

/// `rumqttc::qos`: the client's `QoS` for levels 0, 1 and 2, an
/// `InvalidQoS` error for any other number.
#[verifier::external_body]
fn rumqttc_qos(num: u8) -> (r: Result<ClientQoS, ClientError>)
    ensures
        match r {
            Ok(q) => num <= 2 && rumqttc_qos_level(q) == num,
            Err(_) => num > 2,
        },
{
    rumqttc::mqttbytes::qos(num)
}

/// `q as u8` on the client's `repr(u8)` `QoS`: its discriminant, which the
/// client declares as 0, 1 and 2.
#[verifier::external_body]
fn rumqttc_discriminant(q: ClientQoS) -> (n: u8)
    ensures
        n == rumqttc_qos_level(q),
        n <= 2,
{
    q as u8
}

impl QoS {
    /// The numeric level (0, 1 or 2).
    pub fn level(self) -> (n: u8)
        ensures
            n == qos_level(self),
    {
        match self {
            QoS::AtMostOnce => 0,
            QoS::AtLeastOnce => 1,
            QoS::ExactlyOnce => 2,
        }
    }

    /// The `QoS` of a numeric level, if it is 0, 1 or 2.
    pub fn from_level(n: u8) -> (r: Option<QoS>)
        ensures
            r == qos_of_level(n as nat),
    {
        if n == 0 {
            Some(QoS::AtMostOnce)
        } else if n == 1 {
            Some(QoS::AtLeastOnce)
        } else if n == 2 {
            Some(QoS::ExactlyOnce)
        } else {
            None
        }
    }

    /// Converts to the `rumqttc` `QoS` of the same level.
    pub fn to_rumqttc(self) -> (r: ClientQoS)
        ensures
            rumqttc_qos_level(r) == qos_level(self),
    {
        rumqttc_qos(self.level()).unwrap()
    }

    /// The level's name: `QoS0`, `QoS1` or `QoS2`.
    pub fn to_string(&self) -> (s: String)
        ensures
            s@ == qos_text(*self),
    {
        match self {
            QoS::AtMostOnce => crate::text::owned_string("QoS0"),
            QoS::AtLeastOnce => crate::text::owned_string("QoS1"),
            QoS::ExactlyOnce => crate::text::owned_string("QoS2"),
        }
    }
}

impl From<ClientQoS> for QoS {
    /// The `QoS` of the same level as the client's value.
    fn from(qos: ClientQoS) -> (r: QoS) {
        QoS::from_level(rumqttc_discriminant(qos)).unwrap()
    }
}

impl vstd::std_specs::convert::FromSpecImpl<ClientQoS> for QoS {
    open spec fn obeys_from_spec() -> bool {
        true
    }

    open spec fn from_spec(v: ClientQoS) -> QoS {
        qos_of_level(rumqttc_qos_level(v) as nat)->0
    }
}

/// Converting to the client's `QoS` and back gives the level one started with.
pub proof fn lemma_rumqttc_roundtrip(q: QoS, r: ClientQoS)
    requires
        rumqttc_qos_level(r) == qos_level(q),
    ensures
        <QoS as vstd::std_specs::convert::FromSpec<ClientQoS>>::from_spec(r) == q,
{
}

/// Distinct `QoS` values have distinct levels, and each level gives its
/// `QoS` back.
pub proof fn lemma_level_injective(a: QoS, b: QoS)
    ensures
        qos_level(a) == qos_level(b) <==> a == b,
        qos_of_level(qos_level(a)) == Some(a),
{
}

} // verus!
