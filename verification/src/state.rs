use vstd::prelude::*;

verus! {

/// Session context: the current working directory together with the pending
/// output and error text that command execution accumulates.  The fields are
/// public so that contracts elsewhere can speak about them directly; the
/// surrounding program decides when to display or redirect the buffers.
pub struct State {
    pub pwd: String,
    pub stdout: String,
    pub stderr: String,
}

impl State {
    /// Creates a session context with the given initial working directory and
    /// empty output buffers.
    pub fn new(pwd: String) -> (s: State)
        ensures
            s.pwd@ == pwd@,
            s.stdout@ == Seq::<char>::empty(),
            s.stderr@ == Seq::<char>::empty(),
    {
        State { pwd, stdout: String::new(), stderr: String::new() }
    }

    /// The current working directory.
    pub fn pwd(&self) -> (r: &str)
        ensures
            r@ == self.pwd@,
    {
        self.pwd.as_str()
    }

    /// Replaces the current working directory; the buffers are untouched.
    pub fn set_pwd(&mut self, pwd: &str)
        ensures
            final(self).pwd@ == pwd@,
            final(self).stdout@ == old(self).stdout@,
            final(self).stderr@ == old(self).stderr@,
    {
        self.pwd = pwd.to_owned();
    }

    /// Hands back the accumulated output text and empties the buffer.
    pub fn flush_stdout(&mut self) -> (r: String)
        ensures
            r@ == old(self).stdout@,
            final(self).stdout@ == Seq::<char>::empty(),
            final(self).pwd@ == old(self).pwd@,
            final(self).stderr@ == old(self).stderr@,
    {
        let output = self.stdout.clone();
        self.stdout = String::new();
        output
    }

    /// Appends text to the pending output buffer.
    pub fn write_stdout(&mut self, text: &str)
        ensures
            final(self).stdout@ == old(self).stdout@ + text@,
            final(self).pwd@ == old(self).pwd@,
            final(self).stderr@ == old(self).stderr@,
    {
        self.stdout.append(text);
    }

    /// Hands back the accumulated error text and empties the buffer.
    pub fn flush_stderr(&mut self) -> (r: String)
        ensures
            r@ == old(self).stderr@,
            final(self).stderr@ == Seq::<char>::empty(),
            final(self).pwd@ == old(self).pwd@,
            final(self).stdout@ == old(self).stdout@,
    {
        let error = self.stderr.clone();
        self.stderr = String::new();
        error
    }

    /// Appends text to the pending error buffer.
    pub fn write_stderr(&mut self, text: &str)
        ensures
            final(self).stderr@ == old(self).stderr@ + text@,
            final(self).pwd@ == old(self).pwd@,
            final(self).stdout@ == old(self).stdout@,
    {
        self.stderr.append(text);
    }
}

} // verus!
