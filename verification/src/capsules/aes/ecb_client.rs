//! Electronic codebook for processes: the client of that mode.
use crate::capsules::aes::{Aes128CipherDriver, AesView, RO_INPUT, RO_KEY};
use crate::error::ErrorCode;
use crate::grant;
use crate::hil::cipher::{Aes128, EcbClient};
use crate::hil::trace::{Call, Observed, Port};
use vstd::prelude::*;

verus! {

impl<CBC, CCM, CTR, ECB, GCM> EcbClient<Aes128> for Aes128CipherDriver<
    CBC,
    CCM,
    CTR,
    ECB,
    GCM,
> {
    fn read_key(&mut self, key: &mut [u8]) -> (result: Result<(), ErrorCode>)
        ensures
            final(self)@ == old(self)@,
            match old(self)@.exact(RO_KEY, old(key)@.len()) {
                Ok(data) => result is Ok && final(key)@ == data,
                Err(error) => result == Err::<(), ErrorCode>(error),
            },
    {
        let result = self.read_exact(RO_KEY, key);
        proof {
            self.log@ = self.log@.push(
                Call::Fill { port: Port::Key, offered: old(key)@, buffer: key@, result },
            );
        }
        result
    }

    fn read_input(&mut self, input: &mut [u8]) -> (count: Result<usize, ErrorCode>)
        ensures
            match old(self)@.part(RO_INPUT, old(self)@.input_offset as nat, old(input)@.len()) {
                Ok(data) => {
                    &&& count is Ok
                    &&& count->Ok_0 == data.len()
                    &&& final(input)@ == grant::overwritten(old(input)@, 0, data)
                    &&& final(self)@ == (AesView {
                        input_offset: (old(self)@.input_offset + data.len()) as usize,
                        ..old(self)@
                    })
                },
                Err(error) => {
                    &&& count == Err::<usize, ErrorCode>(error)
                    &&& final(self)@ == old(self)@
                },
            },
    {
        let count = self.take_input(input);
        proof {
            self.log@ = self.log@.push(
                Call::Read {
                    port: Port::Input,
                    offered: old(input)@,
                    buffer: input@,
                    count,
                },
            );
        }
        count
    }

    fn write_output(&mut self, output: &[u8]) -> (result: Result<(), ErrorCode>)
        ensures
            final(self)@ == old(self)@.output(output@).0,
            grant::same_result(result, old(self)@.output(output@).1),
    {
        let result = self.put_output(output);
        proof {
            self.log@ = self.log@.push(
                Call::Write { port: Port::Output, data: output@, result },
            );
        }
        result
    }

    fn crypt_done(&mut self, result: Result<(), ErrorCode>)
        ensures
            final(self)@ == old(self)@.finished(result),
    {
        self.finish(result);
        proof {
            self.log@ = self.log@.push(Call::Done { result });
        }
    }
}

} // verus!
