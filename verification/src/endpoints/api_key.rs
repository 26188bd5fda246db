//! The API keys that the broker serves.

use vstd::prelude::*;

verus! {

/// An API key that the broker serves.
#[derive(Clone, Copy, PartialEq, Eq, Structural)]
pub enum ApiKey {
    Produce,
    ApiVersions,
    DescribeTopicPartitions,
}

/// The key that a request header's API key number names, or the number back
/// where it names none the broker serves.
pub open spec fn api_key_from_code(value: i16) -> Result<ApiKey, i16> {
    if value == 0 {
        Ok(ApiKey::Produce)
    } else if value == 18 {
        Ok(ApiKey::ApiVersions)
    } else if value == 75 {
        Ok(ApiKey::DescribeTopicPartitions)
    } else {
        Err(value)
    }
}

/// The keys that the broker serves, in the order it lists them.
pub open spec fn all_api_keys() -> Seq<ApiKey> {
    seq![ApiKey::Produce, ApiKey::ApiVersions, ApiKey::DescribeTopicPartitions]
}

impl ApiKey {
    /// The key's number on the wire.
    pub open spec fn spec_code(self) -> i16 {
        match self {
            ApiKey::Produce => 0,
            ApiKey::ApiVersions => 18,
            ApiKey::DescribeTopicPartitions => 75,
        }
    }

    /// The versions of the key that the broker serves, lowest and highest.
    pub open spec fn spec_version_range(self) -> (i16, i16) {
        match self {
            ApiKey::Produce => (0, 11),
            ApiKey::ApiVersions => (0, 4),
            ApiKey::DescribeTopicPartitions => (0, 0),
        }
    }

    /// The key's number on the wire.
    pub fn code(self) -> (c: i16)
        ensures
            c == self.spec_code(),
    {
        match self {
            ApiKey::Produce => 0,
            ApiKey::ApiVersions => 18,
            ApiKey::DescribeTopicPartitions => 75,
        }
    }

    /// The versions of the key that the broker serves, lowest and highest.
    pub fn version_range(self) -> (r: (i16, i16))
        ensures
            r == self.spec_version_range(),
    {
        match self {
            ApiKey::Produce => (0, 11),
            ApiKey::ApiVersions => (0, 4),
            ApiKey::DescribeTopicPartitions => (0, 0),
        }
    }

    /// The keys that the broker serves, in the order it lists them.
    pub fn all() -> (r: &'static [ApiKey])
        ensures
            r@ == all_api_keys(),
    {
        let keys: &'static [ApiKey] = &[ApiKey::Produce, ApiKey::ApiVersions, ApiKey::DescribeTopicPartitions];
        assert(keys@ =~= all_api_keys());
        keys
    }
}

impl TryFrom<i16> for ApiKey {
    type Error = i16;

    fn try_from(value: i16) -> (r: Result<ApiKey, i16>)
        ensures
            r == api_key_from_code(value),
    {
        match value {
            0 => Ok(ApiKey::Produce),
            18 => Ok(ApiKey::ApiVersions),
            75 => Ok(ApiKey::DescribeTopicPartitions),
            other => Err(other),
        }
    }
}

impl vstd::std_specs::convert::TryFromSpecImpl<i16> for ApiKey {
    open spec fn obeys_try_from_spec() -> bool {
        true
    }

    open spec fn try_from_spec(v: i16) -> Result<ApiKey, i16> {
        api_key_from_code(v)
    }
}

/// The API key numbers the broker serves: 0 is `Produce`, 18 is
/// `ApiVersions`, 75 is `DescribeTopicPartitions`; any other number names no
/// key and comes back as the error. The keys are listed in that order, with
/// versions 0 to 11, 0 to 4 and 0 to 0.
pub proof fn lemma_api_key_numbers(value: i16)
    ensures
        api_key_from_code(value) == if value == 0 {
            Ok::<ApiKey, i16>(ApiKey::Produce)
        } else if value == 18 {
            Ok(ApiKey::ApiVersions)
        } else if value == 75 {
            Ok(ApiKey::DescribeTopicPartitions)
        } else {
            Err(value)
        },
        all_api_keys().len() == 3,
        all_api_keys()[0].spec_code() == 0 && all_api_keys()[0].spec_version_range() == (0i16, 11i16),
        all_api_keys()[1].spec_code() == 18 && all_api_keys()[1].spec_version_range() == (0i16, 4i16),
        all_api_keys()[2].spec_code() == 75 && all_api_keys()[2].spec_version_range() == (0i16, 0i16),
{
}

/// Reading back the number of a key gives the key.
pub proof fn lemma_api_key_code_roundtrip(k: ApiKey)
    ensures
        api_key_from_code(k.spec_code()) == Ok::<ApiKey, i16>(k),
{
}

/// A number names a key exactly when it is the number of one of the keys
/// that the broker lists; any other number comes back as the error.
pub proof fn lemma_api_key_from_code_complete(value: i16)
    ensures
        api_key_from_code(value) is Ok <==> exists|i: int| 0 <= i < all_api_keys().len() && (#[trigger] all_api_keys()[i]).spec_code() == value,
        api_key_from_code(value) is Err ==> api_key_from_code(value) == Err::<ApiKey, i16>(value),
        api_key_from_code(value) matches Ok(k) ==> k.spec_code() == value,
{
    if value == 0 {
        assert(all_api_keys()[0].spec_code() == value);
    } else if value == 18 {
        assert(all_api_keys()[1].spec_code() == value);
    } else if value == 75 {
        assert(all_api_keys()[2].spec_code() == value);
    }
}

} // verus!
