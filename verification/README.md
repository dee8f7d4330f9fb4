# lib

A verified parser for a small language of functions, blocks, statements and
expressions. It reads a sequence of tokens and builds the syntax tree, together
with the first error it met.

- `src/parser.rs`: the token and syntax-tree types and the parse functions.
  Each parse function takes the tokens and an index into them, returns what it
  read and the first error, and leaves the index where it stopped.
- `src/model.rs`: the mathematical values of the syntax tree (strings as
  character sequences, vectors as sequences) and the views onto them.
- `src/semantics.rs`: what each parse function computes, as spec functions on
  the token sequence, with laws about them (the index never moves backward nor
  past the end; an error once met is the one reported; how a block ends; an
  expression without parentheses reads back as its tokens; a file is the
  sequence of its functions).
- `src/checks.rs`: executable tests of the preconditions (`file_is_parsable`,
  and for each parse function the index where it ends, or `None`).
- `src/locality.rs`: a parse step reads only the tokens from where it starts,
  and one read without error reads nothing past where it ends but whether an
  operator or a parenthesis follows; hence separators put at the boundaries of
  a block's statements change nothing but where it ends.
- `src/precedence.rs`: how an expression tree is built from operands and
  operators by precedence, and the proof that the operator stack used by
  `parse_expression` builds exactly that tree.

Each parse function requires an input on which parsing neither reads past the
end of the tokens nor gets stuck in a loop that stops moving forward: that is
the condition that its spec function is defined (`is Some`) there. Its result,
the index where it stops and the error it reports are then exactly those of the
spec function.
