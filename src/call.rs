use crate::linker::Address;
use crate::wei::U256;
use vstd::prelude::*;

verus! {

/// What a transaction sends: from whom, with how much gas at what price, and how much value.
#[derive(Debug, Clone, Copy)]
pub struct Call {
    /// The sender of the call.
    pub sender: Address,
    /// The amount of gas to include in the call.
    pub gas: U256,
    /// The price willing to pay for gas during the call (in wei).
    pub gas_price: U256,
    /// The amount of ether attached to the call (in wei).
    pub value: U256,
}

impl Call {
    /// A call from `sender` with no gas, no gas price and no value.
    pub fn new(sender: Address) -> (r: Self)
        ensures
            r.sender == sender,
            r.gas.value() == 0,
            r.gas_price.value() == 0,
            r.value.value() == 0,
    {
        Self { sender, gas: U256::zero(), gas_price: U256::zero(), value: U256::zero() }
    }

    /// The same call from another sender.
    pub fn sender(self, sender: Address) -> (r: Self)
        ensures
            r == (Call { sender, ..self }),
    {
        Self { sender, ..self }
    }

    /// The same call with the given gas.
    pub fn gas(self, gas: U256) -> (r: Self)
        ensures
            r == (Call { gas, ..self }),
    {
        Self { gas, ..self }
    }

    /// The same call with the given gas price.
    pub fn gas_price(self, gas_price: U256) -> (r: Self)
        ensures
            r == (Call { gas_price, ..self }),
    {
        Self { gas_price, ..self }
    }

    /// The same call with the given value.
    pub fn value(self, value: U256) -> (r: Self)
        ensures
            r == (Call { value, ..self }),
    {
        Self { value, ..self }
    }
}

} // verus!
