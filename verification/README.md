# dodriodiff

Diffing of virtual DOM trees into change lists, verified with Verus.

A `DiffingMachine` compares an old virtual tree with a new one. It emits
instructions for a stack machine that holds physical nodes. Run on a physical
tree that reflects the old virtual tree, they turn it into one that reflects
the new tree.

- `vnode`: virtual trees
- `changelist`: instructions, and the list they are emitted into
- `diff`: the diffing machine
- `keys`: what the keys of siblings tell
- `fx`, `lis`: hash maps and sets, and longest increasing subsequences, from
  outside crates
- `steps`: which steps each kind of diff takes on the change list. The contracts
  in `diff` say that these steps are taken, and no others
- `slots`: how many temporaries each kind of diff takes
- `dom`: physical trees, the stack machine, and what it means for a physical
  tree to reflect a virtual one
- `laws`: what the emitted instructions do to a physical tree, and how many
  physical nodes they move (`laws::moves`, `laws::fewest`)

## What the laws leave out

A physical tree reflects the new virtual tree after a diff, with two
exceptions, which `laws::basic::shows` spells out:

- An element whose only child is an empty text gets that child by having its
  text content set to nothing, which leaves it without a child.
- A new attribute is held against the first old one of its name. Where a list
  has two values for one name, the element may end up with another value than
  the last new one.

In these cases too every instruction can be carried out, and the stack is in
the state in which the laws leave it otherwise.
